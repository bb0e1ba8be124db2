//! The reuse cache: which subtrees of a parsed tree start at which byte.

use rustc_hash::FxHashMap;
use std::sync::Arc;
use vstd::multiset::Multiset;
use vstd::prelude::*;
use vstd::seq_lib::to_multiset_insert;
use vstd::string::*;

use crate::expr::ast::{lemma_call_shape, shapes, Node, NodeKind};
use crate::expr::grammar::{at, toks_ok};
use crate::expr::lexer::{lex, models, tokenize, Tok, Token};
use crate::expr::parser::parsed;
use crate::expr::placement::lemma_parse;
use crate::expr::pratt_core::lemma_lex_toks;
use crate::expr::resume::lemma_deep_parse;
use crate::expr::naming::within;
use crate::expr::op::chain_kind;
use crate::expr::shape::{bands_ok, fits, grouped, grouped_part, lemma_bands, lemma_norm_call, levelled, norm, norms, sn};
use crate::index::{entries, index_get, index_insert, index_new};

verus! {

/// Lists of subtrees by key, each list widest first.
pub struct NodeIndex {
    pub index: FxHashMap<u64, usize>,
    pub lists: Vec<Vec<Arc<Node>>>,
}

pub open spec fn widest_first(v: Seq<Arc<Node>>) -> bool {
    forall|i: int, j: int| 0 <= i < j < v.len() ==> (#[trigger] v[i]).width >= (#[trigger] v[j]).width
}

/// Insert `node` behind the nodes that are at least as wide.
fn insert_by_width(v: &mut Vec<Arc<Node>>, node: Arc<Node>)
    requires
        widest_first(old(v)@),
    ensures
        widest_first(final(v)@),
        final(v)@.to_multiset() == old(v)@.to_multiset().insert(node),
        forall|k: int|
            0 <= k < final(v)@.len() ==> (#[trigger] final(v)@[k]) == node || old(v)@.contains(
                final(v)@[k],
            ),
{
    let mut i: usize = v.len();
    while i > 0 && v[i - 1].width < node.width
        invariant
            i <= v@.len(),
            v@ == old(v)@,
            widest_first(v@),
            forall|k: int| i <= k < v@.len() ==> (#[trigger] v@[k]).width < node.width,
        decreases i,
    {
        i = i - 1;
    }
    let ghost before = v@;
    v.insert(i, node);
    proof {
        to_multiset_insert(before, i as int, node);
        let after = v@;
        assert forall|k: int| 0 <= k < after.len() implies (#[trigger] after[k]) == node
            || before.contains(after[k]) by {
            if k < i {
                assert(after[k] == before[k]);
            } else if k > i {
                assert(after[k] == before[k - 1]);
            }
        }
        assert forall|x: int, y: int| 0 <= x < y < after.len() implies (#[trigger] after[x]).width
            >= (#[trigger] after[y]).width by {
            let bx = if x < i { before[x] } else { before[x - 1] };
            let by_ = if y < i { before[y] } else { before[y - 1] };
            if x != i && y != i {
                assert(after[x] == bx);
                assert(after[y] == by_);
            } else if x == i {
                assert(after[y] == by_);
            } else {
                assert(after[x] == bx);
                assert(before[i - 1].width >= node.width);
                if x < i - 1 {
                    assert(before[x].width >= before[i - 1].width);
                }
            }
        }
    }
}

impl NodeIndex {
    pub open spec fn wf(&self) -> bool {
        &&& forall|k: u64|
            #[trigger] entries(self.index).contains_key(k) ==> entries(self.index)[k]
                < self.lists@.len()
        &&& forall|k: u64, l: u64|
            #[trigger] entries(self.index).contains_key(k) && #[trigger] entries(
                self.index,
            ).contains_key(l) && k != l ==> entries(self.index)[k] != entries(self.index)[l]
        &&& forall|i: int| 0 <= i < self.lists@.len() ==> widest_first(#[trigger] self.lists@[i]@)
    }

    /// The subtrees under a key.
    pub open spec fn cands(&self, key: u64) -> Seq<Arc<Node>> {
        if entries(self.index).contains_key(key) {
            self.lists@[entries(self.index)[key] as int]@
        } else {
            Seq::empty()
        }
    }

    pub fn new() -> (r: NodeIndex)
        ensures
            r.wf(),
            forall|k: u64| #[trigger] r.cands(k) == Seq::<Arc<Node>>::empty(),
    {
        NodeIndex { index: index_new(), lists: Vec::new() }
    }

    /// The subtrees under `key`, widest first.
    pub fn get(&self, key: u64) -> (r: Option<&Vec<Arc<Node>>>)
        requires
            self.wf(),
        ensures
            match r {
                Some(v) => v@ == self.cands(key) && widest_first(v@),
                None => self.cands(key) == Seq::<Arc<Node>>::empty(),
            },
    {
        match index_get(&self.index, key) {
            Some(i) => Some(&self.lists[i]),
            None => None,
        }
    }

    /// Add `node` under `key`.
    pub fn push(&mut self, key: u64, node: Arc<Node>)
        requires
            old(self).wf(),
        ensures
            final(self).wf(),
            forall|k: u64| k != key ==> #[trigger] final(self).cands(k) == old(self).cands(k),
            final(self).cands(key).to_multiset() == old(self).cands(key).to_multiset().insert(node),
            forall|j: int|
                0 <= j < final(self).cands(key).len() ==> (#[trigger] final(self).cands(key)[j])
                    == node || old(self).cands(key).contains(final(self).cands(key)[j]),
    {
        match index_get(&self.index, key) {
            Some(i) => {
                insert_by_width(&mut self.lists[i], node);
            },
            None => {
                let i: usize = self.lists.len();
                let mut v: Vec<Arc<Node>> = Vec::new();
                proof {
                    assert(Seq::<Arc<Node>>::empty() =~= v@);
                }
                insert_by_width(&mut v, node);
                self.lists.push(v);
                index_insert(&mut self.index, key, i);
            },
        }
    }
}

/// `n` is cached soundly for a source with tokens `a`: it stands at token `p`,
/// which starts at byte `key`.
pub open spec fn entry_at(a: Seq<Tok>, p: int, key: u64, n: Node) -> bool {
    &&& 0 <= p < a.len() - 1
    &&& a[p].start == key
    &&& bands_ok(a, p, n@)
    &&& fits(a, p, n@)
    &&& n.weighted()
}

/// `n` is cached soundly under `key`.
pub open spec fn entry_ok(a: Seq<Tok>, key: u64, n: Node) -> bool {
    exists|p: int| entry_at(a, p, key, n)
}

/// Every cached subtree is cached soundly.
pub open spec fn index_sound(a: Seq<Tok>, ix: NodeIndex) -> bool {
    forall|key: u64, j: int|
        0 <= j < ix.cands(key).len() ==> entry_ok(a, key, *(#[trigger] ix.cands(key)[j]))
}

/// Atoms and recovery markers are not worth caching.
pub open spec fn worth_caching(n: Node) -> bool {
    !(n.kind is Atom) && !(n.kind is Missing) && !(n.kind is Error)
}

/// The cached subtrees of `n`, which stands at token `p`, that start at byte
/// `key`.
pub open spec fn starting_at(n: Arc<Node>, a: Seq<Tok>, p: int, key: u64) -> Multiset<Arc<Node>>
    decreases n, 0int,
{
    let own = if worth_caching(*n) && a[p].start == key {
        Multiset::singleton(n)
    } else {
        Multiset::empty()
    };
    match n.kind {
        NodeKind::Atom(s) => own,
        NodeKind::Prefix { op, child } => own.add(starting_at(child, a, p + 1, key)),
        NodeKind::Binary { op, left, right } => own.add(starting_at(left, a, p, key)).add(
            starting_at(right, a, p + sn(left@) + 1, key),
        ),
        NodeKind::Ternary { cond, then, else_ } => own.add(starting_at(cond, a, p, key)).add(
            starting_at(then, a, p + sn(cond@) + 1, key),
        ).add(starting_at(else_, a, p + sn(cond@) + sn(then@) + 2, key)),
        NodeKind::Paren { inner } => own.add(starting_at(inner, a, p + 1, key)),
        NodeKind::Call { callee, args } => own.add(starting_at(callee, a, p, key)).add(
            args_starting_at(args@, args@.len() as int, a, p + sn(callee@) + 1, key),
        ),
        NodeKind::Index { array, index } => own.add(starting_at(array, a, p, key)).add(
            starting_at(index, a, p + sn(array@) + 1, key),
        ),
        NodeKind::Member { object, field } => own.add(starting_at(object, a, p, key)),
        NodeKind::Missing => own,
        NodeKind::Error { skipped } => own,
    }
}

/// The same for the first `k` arguments of a call; the first one stands at
/// token `p`.
pub open spec fn args_starting_at(
    args: Seq<Arc<Node>>,
    k: int,
    a: Seq<Tok>,
    p: int,
    key: u64,
) -> Multiset<Arc<Node>>
    decreases args, k,
{
    if 0 < k <= args.len() {
        args_starting_at(args, k - 1, a, p, key).add(
            starting_at(args[k - 1], a, at(p, norms(shapes(args)), k - 1), key),
        )
    } else {
        Multiset::empty()
    }
}

/// What walking over a subtree adds to an index.
pub open spec fn index_grown(
    before: NodeIndex,
    after: NodeIndex,
    a: Seq<Tok>,
    added: spec_fn(u64) -> Multiset<Arc<Node>>,
) -> bool {
    &&& after.wf()
    &&& forall|key: u64|
        (#[trigger] after.cands(key)).to_multiset() == before.cands(key).to_multiset().add(
            added(key),
        )
    &&& index_sound(a, before) ==> index_sound(a, after)
}

/// What walking over two stretches in turn adds.
proof fn lemma_grown(
    c0: NodeIndex,
    c1: NodeIndex,
    c2: NodeIndex,
    a: Seq<Tok>,
    f: spec_fn(u64) -> Multiset<Arc<Node>>,
    g: spec_fn(u64) -> Multiset<Arc<Node>>,
    h: spec_fn(u64) -> Multiset<Arc<Node>>,
)
    requires
        index_grown(c0, c1, a, f),
        index_grown(c1, c2, a, g),
        forall|key: u64| #[trigger] h(key) == f(key).add(g(key)),
    ensures
        index_grown(c0, c2, a, h),
{
    assert forall|key: u64| (#[trigger] c2.cands(key)).to_multiset() == c0.cands(
        key,
    ).to_multiset().add(h(key)) by {
        assert(c1.cands(key).to_multiset() == c0.cands(key).to_multiset().add(f(key)));
        assert(c2.cands(key).to_multiset() =~= c0.cands(key).to_multiset().add(h(key)));
    }
}

pub open spec fn own_entry(n: Arc<Node>, a: Seq<Tok>, p: int, key: u64) -> Multiset<Arc<Node>> {
    if worth_caching(*n) && a[p].start == key {
        Multiset::singleton(n)
    } else {
        Multiset::empty()
    }
}

/// Record `node` itself.
fn cache_node(
    node: &Arc<Node>,
    start_byte: u32,
    cache: &mut NodeIndex,
    Ghost(a): Ghost<Seq<Tok>>,
    Ghost(p): Ghost<int>,
)
    requires
        old(cache).wf(),
        0 <= p,
        start_byte == a[p].start,
        bands_ok(a, p, node@),
        fits(a, p, node@),
        node.weighted(),
    ensures
        index_grown(*old(cache), *final(cache), a, |key: u64| own_entry(*node, a, p, key)),
{
    let ghost c0 = *cache;
    let cached = match &node.kind {
        NodeKind::Atom(_) => false,
        NodeKind::Missing => false,
        NodeKind::Error { .. } => false,
        _ => true,
    };
    if cached {
        cache.push(start_byte as u64, Arc::clone(node));
    }
    proof {
        let c1 = *cache;
        let own = |key: u64| own_entry(*node, a, p, key);
        assert forall|key: u64| (#[trigger] c1.cands(key)).to_multiset() == c0.cands(
            key,
        ).to_multiset().add(own(key)) by {
            assert(c1.cands(key).to_multiset() =~= c0.cands(key).to_multiset().add(own(key)));
        }
        if index_sound(a, c0) {
            assert forall|key: u64, j: int| 0 <= j < c1.cands(key).len() implies entry_ok(
                a,
                key,
                *(#[trigger] c1.cands(key)[j]),
            ) by {
                if cached && key == start_byte {
                    if c1.cands(key)[j] == *node {
                        assert(entry_at(a, p, key, *c1.cands(key)[j]));
                    } else {
                        let i = choose|i: int|
                            0 <= i < c0.cands(key).len() && c0.cands(key)[i] == c1.cands(key)[j];
                        assert(c0.cands(key)[i] == c1.cands(key)[j]);
                    }
                } else {
                    assert(c1.cands(key) == c0.cands(key));
                    assert(c0.cands(key)[j] == c1.cands(key)[j]);
                }
            }
        }
    }
}

/// Record every subtree of `node` that is worth caching under its start byte.
/// `cursor` walks over the node's tokens.
#[verifier::rlimit(50)]
fn walk_cache(
    node: &Arc<Node>,
    cursor: &mut usize,
    tokens: &Vec<Token>,
    cache: &mut NodeIndex,
    Ghost(s): Ghost<Seq<u8>>,
)
    requires
        old(cache).wf(),
        bands_ok(models(tokens@, s), *old(cursor) as int, node@),
        fits(models(tokens@, s), *old(cursor) as int, node@),
        node.weighted(),
    ensures
        *final(cursor) == *old(cursor) + sn(node@),
        index_grown(
            *old(cache),
            *final(cache),
            models(tokens@, s),
            |key: u64| starting_at(*node, models(tokens@, s), *old(cursor) as int, key),
        ),
    decreases node, 0int,
{
    let ghost a = models(tokens@, s);
    let ghost p = *cursor as int;
    let ghost t = node@;
    let ghost c0 = *cache;
    let ghost all = |key: u64| starting_at(*node, a, p, key);
    let ghost f0 = |key: u64| own_entry(*node, a, p, key);
    let _count: usize = tokens.len();
    let start_byte: u32 = tokens[*cursor].start;
    cache_node(node, start_byte, cache, Ghost(a), Ghost(p));
    let ghost c1 = *cache;
    match &node.kind {
        NodeKind::Atom(_) => {
            *cursor = *cursor + 1;
            assert(forall|key: u64| #[trigger] all(key) == f0(key));
        },
        NodeKind::Prefix { op: _, child } => {
            assert(bands_ok(a, p + 1, child@));
            *cursor = *cursor + 1;
            walk_cache(child, cursor, tokens, cache, Ghost(s));
            proof {
                let f1 = |key: u64| starting_at(*child, a, p + 1, key);
                lemma_grown(c0, c1, *cache, a, f0, f1, all);
            }
        },
        NodeKind::Binary { op: _, left, right } => {
            let ghost p2 = p + sn(left@) + 1;
            assert(bands_ok(a, p2, right@));
            walk_cache(left, cursor, tokens, cache, Ghost(s));
            let ghost c2 = *cache;
            *cursor = *cursor + 1;
            walk_cache(right, cursor, tokens, cache, Ghost(s));
            proof {
                let f1 = |key: u64| starting_at(*left, a, p, key);
                let f2 = |key: u64| starting_at(*right, a, p2, key);
                let f01 = |key: u64| f0(key).add(f1(key));
                lemma_grown(c0, c1, c2, a, f0, f1, f01);
                lemma_grown(c0, c2, *cache, a, f01, f2, all);
            }
        },
        NodeKind::Ternary { cond, then, else_ } => {
            let ghost p2 = p + sn(cond@) + 1;
            let ghost p3 = p + sn(cond@) + sn(then@) + 2;
            assert(bands_ok(a, p2, then@));
            assert(bands_ok(a, p3, else_@));
            walk_cache(cond, cursor, tokens, cache, Ghost(s));
            let ghost c2 = *cache;
            *cursor = *cursor + 1;
            walk_cache(then, cursor, tokens, cache, Ghost(s));
            let ghost c3 = *cache;
            *cursor = *cursor + 1;
            walk_cache(else_, cursor, tokens, cache, Ghost(s));
            proof {
                let f1 = |key: u64| starting_at(*cond, a, p, key);
                let f2 = |key: u64| starting_at(*then, a, p2, key);
                let f3 = |key: u64| starting_at(*else_, a, p3, key);
                let f01 = |key: u64| f0(key).add(f1(key));
                let f02 = |key: u64| f01(key).add(f2(key));
                lemma_grown(c0, c1, c2, a, f0, f1, f01);
                lemma_grown(c0, c2, c3, a, f01, f2, f02);
                lemma_grown(c0, c3, *cache, a, f02, f3, all);
            }
        },
        NodeKind::Paren { inner } => {
            assert(bands_ok(a, p + 1, inner@));
            *cursor = *cursor + 1;
            walk_cache(inner, cursor, tokens, cache, Ghost(s));
            *cursor = *cursor + 1;
            proof {
                let f1 = |key: u64| starting_at(*inner, a, p + 1, key);
                lemma_grown(c0, c1, *cache, a, f0, f1, all);
            }
        },
        NodeKind::Call { callee, args } => {
            let ghost p2 = p + sn(callee@) + 1;
            proof {
                lemma_call_shape(&**node);
                lemma_norm_call(t);
                if args@.len() > 0 {
                    assert(at(p2, norms(shapes(args@)), 0) == p2);
                    assert(bands_ok(a, at(p2, norms(shapes(args@)), 0), shapes(args@)[0]));
                }
            }
            walk_cache(callee, cursor, tokens, cache, Ghost(s));
            let ghost c2 = *cache;
            *cursor = *cursor + 1;
            proof {
                assert forall|i: int| 0 <= i < args@.len() implies {
                    &&& bands_ok(a, #[trigger] at(p2, norms(shapes(args@)), i), args@[i]@)
                    &&& fits(a, at(p2, norms(shapes(args@)), i), args@[i]@)
                    &&& args@[i].weighted()
                } by {
                    assert(shapes(args@)[i] == args@[i]@);
                }
            }
            walk_args(args, cursor, tokens, cache, Ghost(s));
            *cursor = *cursor + 1;
            proof {
                let f1 = |key: u64| starting_at(*callee, a, p, key);
                let f2 = |key: u64| args_starting_at(args@, args@.len() as int, a, p2, key);
                let f01 = |key: u64| f0(key).add(f1(key));
                lemma_grown(c0, c1, c2, a, f0, f1, f01);
                lemma_grown(c0, c2, *cache, a, f01, f2, all);
            }
        },
        NodeKind::Index { array, index } => {
            let ghost p2 = p + sn(array@) + 1;
            assert(bands_ok(a, p2, index@));
            walk_cache(array, cursor, tokens, cache, Ghost(s));
            let ghost c2 = *cache;
            *cursor = *cursor + 1;
            walk_cache(index, cursor, tokens, cache, Ghost(s));
            *cursor = *cursor + 1;
            proof {
                let f1 = |key: u64| starting_at(*array, a, p, key);
                let f2 = |key: u64| starting_at(*index, a, p2, key);
                let f01 = |key: u64| f0(key).add(f1(key));
                lemma_grown(c0, c1, c2, a, f0, f1, f01);
                lemma_grown(c0, c2, *cache, a, f01, f2, all);
            }
        },
        NodeKind::Member { object, field: _ } => {
            assert(bands_ok(a, p, object@));
            walk_cache(object, cursor, tokens, cache, Ghost(s));
            *cursor = *cursor + 2;
            proof {
                let f1 = |key: u64| starting_at(*object, a, p, key);
                lemma_grown(c0, c1, *cache, a, f0, f1, all);
            }
        },
        NodeKind::Missing => {},
        NodeKind::Error { skipped: _ } => {},
    }
}

/// `walk_cache` for the arguments of a call.
fn walk_args(
    args: &Vec<Arc<Node>>,
    cursor: &mut usize,
    tokens: &Vec<Token>,
    cache: &mut NodeIndex,
    Ghost(s): Ghost<Seq<u8>>,
)
    requires
        old(cache).wf(),
        forall|i: int|
            0 <= i < args@.len() ==> {
                &&& bands_ok(
                    models(tokens@, s),
                    #[trigger] at(*old(cursor) as int, norms(shapes(args@)), i),
                    args@[i]@,
                )
                &&& fits(
                    models(tokens@, s),
                    at(*old(cursor) as int, norms(shapes(args@)), i),
                    args@[i]@,
                )
                &&& args@[i].weighted()
            },
    ensures
        *final(cursor) == (if args@.len() == 0 {
            *old(cursor) as int
        } else {
            at(*old(cursor) as int, norms(shapes(args@)), args@.len() as int) - 1
        }),
        index_grown(
            *old(cache),
            *final(cache),
            models(tokens@, s),
            |key: u64|
                args_starting_at(
                    args@,
                    args@.len() as int,
                    models(tokens@, s),
                    *old(cursor) as int,
                    key,
                ),
        ),
    decreases args, 1int,
{
    let ghost a = models(tokens@, s);
    let ghost p = *cursor as int;
    let ghost c0 = *cache;
    let ghost fs = norms(shapes(args@));
    proof {
        let none = |key: u64| args_starting_at(args@, 0, a, p, key);
        assert forall|key: u64| (#[trigger] c0.cands(key)).to_multiset() == c0.cands(
            key,
        ).to_multiset().add(none(key)) by {
            assert(c0.cands(key).to_multiset() =~= c0.cands(key).to_multiset().add(none(key)));
        }
        assert(at(p, fs, 0) == p);
    }
    let count: usize = tokens.len();
    let mut i: usize = 0;
    while i < args.len()
        invariant
            i <= args@.len(),
            count == tokens@.len(),
            a == models(tokens@, s),
            p == *old(cursor),
            c0 == *old(cache),
            fs == norms(shapes(args@)),
            at(p, fs, 0) == p,
            forall|k: int|
                0 <= k < args@.len() ==> {
                    &&& bands_ok(a, #[trigger] at(p, fs, k), args@[k]@)
                    &&& fits(a, at(p, fs, k), args@[k]@)
                    &&& args@[k].weighted()
                },
            *cursor == (if i == 0 {
                p
            } else {
                at(p, fs, i as int) - 1
            }),
            index_grown(c0, *cache, a, |key: u64| args_starting_at(args@, i as int, a, p, key)),
        decreases args@.len() - i,
    {
        let ghost before = *cache;
        assert(bands_ok(a, at(p, fs, i as int), args@[i as int]@));
        if i > 0 {
            *cursor = *cursor + 1;
        }
        walk_cache(&args[i], cursor, tokens, cache, Ghost(s));
        proof {
            assert(norm(args@[i as int]@) == fs[i as int]);
            assert(at(p, fs, i + 1) == at(p, fs, i as int) + sn(args@[i as int]@) + 1);
            let added = |key: u64| args_starting_at(args@, i + 1, a, p, key);
            assert forall|key: u64| (#[trigger] cache.cands(key)).to_multiset() == c0.cands(
                key,
            ).to_multiset().add(added(key)) by {
                assert(before.cands(key).to_multiset() == c0.cands(key).to_multiset().add(
                    args_starting_at(args@, i as int, a, p, key),
                ));
                assert(cache.cands(key).to_multiset() =~= c0.cands(key).to_multiset().add(
                    added(key),
                ));
            }
        }
        i = i + 1;
    }
}


/// Spans by node identity.
pub struct SpanTable {
    pub index: FxHashMap<u64, usize>,
    pub spans: Vec<(u32, u32)>,
}

impl SpanTable {
    pub open spec fn wf(&self) -> bool {
        forall|k: u64|
            #[trigger] entries(self.index).contains_key(k) ==> entries(self.index)[k]
                < self.spans@.len()
    }

    /// The span recorded for an identity.
    pub open spec fn span_of(&self, id: u64) -> Option<(u32, u32)> {
        if entries(self.index).contains_key(id) {
            Some(self.spans@[entries(self.index)[id] as int])
        } else {
            None
        }
    }

    pub fn new() -> (r: SpanTable)
        ensures
            r.wf(),
            forall|id: u64| #[trigger] r.span_of(id) is None,
    {
        SpanTable { index: index_new(), spans: Vec::new() }
    }

    /// The span recorded for `id`.
    pub fn get(&self, id: u64) -> (r: Option<(u32, u32)>)
        requires
            self.wf(),
        ensures
            r == self.span_of(id),
    {
        match index_get(&self.index, id) {
            Some(i) => Some(self.spans[i]),
            None => None,
        }
    }

    /// Record the span of `id`.
    pub fn insert(&mut self, id: u64, span: (u32, u32))
        requires
            old(self).wf(),
        ensures
            final(self).wf(),
            forall|k: u64|
                #[trigger] final(self).span_of(k) == (if k == id {
                    Some(span)
                } else {
                    old(self).span_of(k)
                }),
    {
        let i: usize = self.spans.len();
        self.spans.push(span);
        index_insert(&mut self.index, id, i);
    }
}

/// The span recorded for `id` once the nodes of `n`, which stands at token
/// `p`, have been recorded in preorder on top of `before`.
pub open spec fn span_after(
    before: Option<(u32, u32)>,
    n: Arc<Node>,
    a: Seq<Tok>,
    p: int,
    id: u64,
) -> Option<(u32, u32)>
    decreases n, 0int,
{
    let own = if n.id.0 == id {
        Some((a[p].start as u32, (a[p].start + n.width) as u32))
    } else {
        before
    };
    match n.kind {
        NodeKind::Atom(s) => own,
        NodeKind::Prefix { op, child } => span_after(own, child, a, p + 1, id),
        NodeKind::Binary { op, left, right } => span_after(
            span_after(own, left, a, p, id),
            right,
            a,
            p + sn(left@) + 1,
            id,
        ),
        NodeKind::Ternary { cond, then, else_ } => span_after(
            span_after(span_after(own, cond, a, p, id), then, a, p + sn(cond@) + 1, id),
            else_,
            a,
            p + sn(cond@) + sn(then@) + 2,
            id,
        ),
        NodeKind::Paren { inner } => span_after(own, inner, a, p + 1, id),
        NodeKind::Call { callee, args } => args_span_after(
            span_after(own, callee, a, p, id),
            args@,
            args@.len() as int,
            a,
            p + sn(callee@) + 1,
            id,
        ),
        NodeKind::Index { array, index } => span_after(
            span_after(own, array, a, p, id),
            index,
            a,
            p + sn(array@) + 1,
            id,
        ),
        NodeKind::Member { object, field } => span_after(own, object, a, p, id),
        NodeKind::Missing => own,
        NodeKind::Error { skipped } => own,
    }
}

/// The same for the first `k` arguments of a call.
pub open spec fn args_span_after(
    before: Option<(u32, u32)>,
    args: Seq<Arc<Node>>,
    k: int,
    a: Seq<Tok>,
    p: int,
    id: u64,
) -> Option<(u32, u32)>
    decreases args, k,
{
    if 0 < k <= args.len() {
        span_after(
            args_span_after(before, args, k - 1, a, p, id),
            args[k - 1],
            a,
            at(p, norms(shapes(args)), k - 1),
            id,
        )
    } else {
        before
    }
}

/// Record the span of every node of `node`, in preorder.
#[verifier::rlimit(50)]
fn walk_spans(
    node: &Arc<Node>,
    cursor: &mut usize,
    tokens: &Vec<Token>,
    spans: &mut SpanTable,
    Ghost(s): Ghost<Seq<u8>>,
)
    requires
        old(spans).wf(),
        toks_ok(models(tokens@, s)),
        bands_ok(models(tokens@, s), *old(cursor) as int, node@),
        fits(models(tokens@, s), *old(cursor) as int, node@),
    ensures
        final(spans).wf(),
        *final(cursor) == *old(cursor) + sn(node@),
        forall|id: u64|
            #[trigger] final(spans).span_of(id) == span_after(
                old(spans).span_of(id),
                *node,
                models(tokens@, s),
                *old(cursor) as int,
                id,
            ),
    decreases node, 0int,
{
    let ghost a = models(tokens@, s);
    let ghost p = *cursor as int;
    let _count: usize = tokens.len();
    let start_byte: u32 = tokens[*cursor].start;
    proof {
        assert(a[p + sn(node@) - 1].end <= u32::MAX);
        assert(node.width == a[p + sn(node@) - 1].end - a[p].start);
        assert(start_byte == a[p].start);
    }
    spans.insert(node.id.0, (start_byte, start_byte + node.width));
    match &node.kind {
        NodeKind::Atom(_) => {
            *cursor = *cursor + 1;
        },
        NodeKind::Prefix { op: _, child } => {
            assert(bands_ok(a, p + 1, child@));
            *cursor = *cursor + 1;
            walk_spans(child, cursor, tokens, spans, Ghost(s));
        },
        NodeKind::Binary { op: _, left, right } => {
            assert(bands_ok(a, p + sn(left@) + 1, right@));
            walk_spans(left, cursor, tokens, spans, Ghost(s));
            *cursor = *cursor + 1;
            walk_spans(right, cursor, tokens, spans, Ghost(s));
        },
        NodeKind::Ternary { cond, then, else_ } => {
            assert(bands_ok(a, p + sn(cond@) + 1, then@));
            assert(bands_ok(a, p + sn(cond@) + sn(then@) + 2, else_@));
            walk_spans(cond, cursor, tokens, spans, Ghost(s));
            *cursor = *cursor + 1;
            walk_spans(then, cursor, tokens, spans, Ghost(s));
            *cursor = *cursor + 1;
            walk_spans(else_, cursor, tokens, spans, Ghost(s));
        },
        NodeKind::Paren { inner } => {
            assert(bands_ok(a, p + 1, inner@));
            *cursor = *cursor + 1;
            walk_spans(inner, cursor, tokens, spans, Ghost(s));
            *cursor = *cursor + 1;
        },
        NodeKind::Call { callee, args } => {
            let ghost p2 = p + sn(callee@) + 1;
            proof {
                lemma_call_shape(&**node);
                lemma_norm_call(node@);
                if args@.len() > 0 {
                    assert(at(p2, norms(shapes(args@)), 0) == p2);
                    assert(bands_ok(a, at(p2, norms(shapes(args@)), 0), shapes(args@)[0]));
                }
            }
            walk_spans(callee, cursor, tokens, spans, Ghost(s));
            *cursor = *cursor + 1;
            proof {
                assert forall|i: int| 0 <= i < args@.len() implies {
                    &&& bands_ok(a, #[trigger] at(p2, norms(shapes(args@)), i), args@[i]@)
                    &&& fits(a, at(p2, norms(shapes(args@)), i), args@[i]@)
                } by {
                    assert(shapes(args@)[i] == args@[i]@);
                }
            }
            walk_arg_spans(args, cursor, tokens, spans, Ghost(s));
            *cursor = *cursor + 1;
        },
        NodeKind::Index { array, index } => {
            assert(bands_ok(a, p + sn(array@) + 1, index@));
            walk_spans(array, cursor, tokens, spans, Ghost(s));
            *cursor = *cursor + 1;
            walk_spans(index, cursor, tokens, spans, Ghost(s));
            *cursor = *cursor + 1;
        },
        NodeKind::Member { object, field: _ } => {
            assert(bands_ok(a, p, object@));
            walk_spans(object, cursor, tokens, spans, Ghost(s));
            *cursor = *cursor + 2;
        },
        NodeKind::Missing => {},
        NodeKind::Error { skipped: _ } => {},
    }
}

/// `walk_spans` for the arguments of a call.
fn walk_arg_spans(
    args: &Vec<Arc<Node>>,
    cursor: &mut usize,
    tokens: &Vec<Token>,
    spans: &mut SpanTable,
    Ghost(s): Ghost<Seq<u8>>,
)
    requires
        old(spans).wf(),
        toks_ok(models(tokens@, s)),
        forall|i: int|
            0 <= i < args@.len() ==> {
                &&& bands_ok(
                    models(tokens@, s),
                    #[trigger] at(*old(cursor) as int, norms(shapes(args@)), i),
                    args@[i]@,
                )
                &&& fits(
                    models(tokens@, s),
                    at(*old(cursor) as int, norms(shapes(args@)), i),
                    args@[i]@,
                )
            },
    ensures
        final(spans).wf(),
        *final(cursor) == (if args@.len() == 0 {
            *old(cursor) as int
        } else {
            at(*old(cursor) as int, norms(shapes(args@)), args@.len() as int) - 1
        }),
        forall|id: u64|
            #[trigger] final(spans).span_of(id) == args_span_after(
                old(spans).span_of(id),
                args@,
                args@.len() as int,
                models(tokens@, s),
                *old(cursor) as int,
                id,
            ),
    decreases args, 1int,
{
    let ghost a = models(tokens@, s);
    let ghost p = *cursor as int;
    let ghost fs = norms(shapes(args@));
    let count: usize = tokens.len();
    let mut i: usize = 0;
    while i < args.len()
        invariant
            i <= args@.len(),
            count == tokens@.len(),
            a == models(tokens@, s),
            toks_ok(a),
            p == *old(cursor),
            fs == norms(shapes(args@)),
            forall|k: int|
                0 <= k < args@.len() ==> {
                    &&& bands_ok(a, #[trigger] at(p, fs, k), args@[k]@)
                    &&& fits(a, at(p, fs, k), args@[k]@)
                },
            *cursor == (if i == 0 {
                p
            } else {
                at(p, fs, i as int) - 1
            }),
            spans.wf(),
            forall|id: u64|
                #[trigger] spans.span_of(id) == args_span_after(
                    old(spans).span_of(id),
                    args@,
                    i as int,
                    a,
                    p,
                    id,
                ),
        decreases args@.len() - i,
    {
        assert(at(p, fs, 0) == p);
        assert(bands_ok(a, at(p, fs, i as int), args@[i as int]@));
        if i > 0 {
            *cursor = *cursor + 1;
        }
        walk_spans(&args[i], cursor, tokens, spans, Ghost(s));
        proof {
            assert(norm(args@[i as int]@) == fs[i as int]);
            assert(at(p, fs, i + 1) == at(p, fs, i as int) + sn(args@[i as int]@) + 1);
        }
        i = i + 1;
    }
}

/// Precomputed reuse cache of one parsed tree, for any number of edits.
pub struct ReuseCache {
    /// Subtrees by start byte.
    pub by_byte: NodeIndex,
    /// Spans by node identity; present if chains are to be spliced.
    pub spans: Option<SpanTable>,
}

impl ReuseCache {
    /// The cache of a tree of `src`: sound for it, and complete.
    pub open spec fn ok(&self, src: Seq<u8>) -> bool {
        &&& self.by_byte.wf()
        &&& index_sound(lex(src), self.by_byte)
        &&& self.spans matches Some(t) ==> t.wf()
    }

    /// The cache holds exactly the subtrees of `tree` worth caching, by start
    /// byte.
    pub open spec fn holds(&self, tree: Arc<Node>, src: Seq<u8>) -> bool {
        &&& forall|key: u64|
            (#[trigger] self.by_byte.cands(key)).to_multiset() == starting_at(
                tree,
                lex(src),
                0,
                key,
            )
        &&& self.spans matches Some(t) ==> forall|id: u64|
            #[trigger] t.span_of(id) == span_after(None, tree, lex(src), 0, id)
    }

    /// The subtrees by start byte.
    pub fn inner(&self) -> (r: &NodeIndex)
        ensures
            *r == self.by_byte,
    {
        &self.by_byte
    }

    /// Build the cache of `old_tree`, a parse of `old_src`.
    pub fn build(old_tree: &Arc<Node>, old_src: &str) -> (r: ReuseCache)
        requires
            old_src.spec_bytes().len() <= u32::MAX,
            parsed(**old_tree, old_src.spec_bytes()),
        ensures
            r.ok(old_src.spec_bytes()),
            r.holds(*old_tree, old_src.spec_bytes()),
            r.spans is None,
            grouped(old_tree@) ==> r.strict(),
            levelled(old_tree@) ==> r.level(),
    {
        let r = Self::build_with(old_tree, old_src, false);
        proof {
            let a = lex(old_src.spec_bytes());
            if grouped(old_tree@) {
                assert forall|key: u64, j: int| 0 <= j < r.by_byte.cands(key).len() implies grouped(
                    (#[trigger] r.by_byte.cands(key)[j])@,
                ) by {
                    r.lemma_held(*old_tree, old_src.spec_bytes(), key, j);
                    lemma_within_grouped(&**old_tree, &*r.by_byte.cands(key)[j]);
                }
            }
        }
        r
    }

    /// Build the cache of `old_tree` for reparses that splice edited chains.
    pub fn build_spliced(old_tree: &Arc<Node>, old_src: &str) -> (r: ReuseCache)
        requires
            old_src.spec_bytes().len() <= u32::MAX,
            parsed(**old_tree, old_src.spec_bytes()),
        ensures
            r.ok(old_src.spec_bytes()),
            r.holds(*old_tree, old_src.spec_bytes()),
            r.spans is Some,
            levelled(old_tree@) ==> r.level(),
    {
        Self::build_with(old_tree, old_src, true)
    }

    fn build_with(old_tree: &Arc<Node>, old_src: &str, with_spans: bool) -> (r: ReuseCache)
        requires
            old_src.spec_bytes().len() <= u32::MAX,
            parsed(**old_tree, old_src.spec_bytes()),
        ensures
            r.ok(old_src.spec_bytes()),
            r.holds(*old_tree, old_src.spec_bytes()),
            r.spans is Some == with_spans,
            levelled(old_tree@) ==> r.level(),
    {
        let ghost s = old_src.spec_bytes();
        let ghost a = lex(s);
        let old_tokens = tokenize(old_src);
        proof {
            lemma_parsed_bands(*old_tree, s);
        }
        let mut by_byte = NodeIndex::new();
        let ghost c0 = by_byte;
        let mut cursor: usize = 0;
        walk_cache(old_tree, &mut cursor, &old_tokens, &mut by_byte, Ghost(s));
        proof {
            assert(index_sound(a, c0)) by {
                assert forall|key: u64, j: int| 0 <= j < c0.cands(key).len() implies entry_ok(
                    a,
                    key,
                    *(#[trigger] c0.cands(key)[j]),
                ) by {
                    assert(c0.cands(key) == Seq::<Arc<Node>>::empty());
                }
            }
            assert forall|key: u64| (#[trigger] by_byte.cands(key)).to_multiset() == starting_at(
                *old_tree,
                a,
                0,
                key,
            ) by {
                assert(c0.cands(key) == Seq::<Arc<Node>>::empty());
                vstd::seq_lib::to_multiset_len(c0.cands(key));
                assert(c0.cands(key).to_multiset() =~= Multiset::empty());
                assert(by_byte.cands(key).to_multiset() =~= starting_at(*old_tree, a, 0, key));
            }
        }
        let spans = if with_spans {
            let mut t = SpanTable::new();
            let mut c: usize = 0;
            walk_spans(old_tree, &mut c, &old_tokens, &mut t, Ghost(s));
            Some(t)
        } else {
            None
        };
        let r = ReuseCache { by_byte, spans };
        proof {
            if levelled(old_tree@) {
                assert forall|key: u64, j: int| 0 <= j < r.by_byte.cands(key).len() implies levelled(
                    (#[trigger] r.by_byte.cands(key)[j])@,
                ) by {
                    r.lemma_held(*old_tree, s, key, j);
                    lemma_within_levelled(&**old_tree, &*r.by_byte.cands(key)[j]);
                }
            }
        }
        r
    }
}

impl ReuseCache {
    /// What is cached is a subtree of the tree it is the cache of.
    pub proof fn lemma_held(&self, tree: Arc<Node>, src: Seq<u8>, key: u64, j: int)
        requires
            self.holds(tree, src),
            0 <= j < self.by_byte.cands(key).len(),
        ensures
            within(&*tree, &*self.by_byte.cands(key)[j]),
    {
        let s = self.by_byte.cands(key);
        s.to_multiset_ensures();
        assert(s.contains(s[j]));
        assert(s.to_multiset().contains(s[j]));
        lemma_starting_within(tree, lex(src), 0, key, s[j]);
    }

    /// Reuse keeps the grouping of a parse without reuse: no chain is spliced,
    /// and every cached subtree is grouped so.
    pub open spec fn strict(&self) -> bool {
        &&& self.spans is None
        &&& forall|key: u64, j: int|
            0 <= j < self.by_byte.cands(key).len() ==> grouped(
                (#[trigger] self.by_byte.cands(key)[j])@,
            )
    }
}

impl ReuseCache {
    /// Every chain in a cached subtree is balanced.
    pub open spec fn level(&self) -> bool {
        forall|key: u64, j: int|
            0 <= j < self.by_byte.cands(key).len() ==> levelled(
                (#[trigger] self.by_byte.cands(key)[j])@,
            )
    }
}

/// Cached subtrees are subtrees.
pub proof fn lemma_starting_within(n: Arc<Node>, a: Seq<Tok>, p: int, key: u64, c: Arc<Node>)
    requires
        starting_at(n, a, p, key).contains(c),
    ensures
        within(&*n, &*c),
    decreases n, 0int,
{
    match n.kind {
        NodeKind::Prefix { op, child } => {
            if starting_at(child, a, p + 1, key).contains(c) {
                lemma_starting_within(child, a, p + 1, key, c);
            }
        },
        NodeKind::Binary { op, left, right } => {
            if starting_at(left, a, p, key).contains(c) {
                lemma_starting_within(left, a, p, key, c);
            }
            if starting_at(right, a, p + sn(left@) + 1, key).contains(c) {
                lemma_starting_within(right, a, p + sn(left@) + 1, key, c);
            }
        },
        NodeKind::Ternary { cond, then, else_ } => {
            if starting_at(cond, a, p, key).contains(c) {
                lemma_starting_within(cond, a, p, key, c);
            }
            if starting_at(then, a, p + sn(cond@) + 1, key).contains(c) {
                lemma_starting_within(then, a, p + sn(cond@) + 1, key, c);
            }
            if starting_at(else_, a, p + sn(cond@) + sn(then@) + 2, key).contains(c) {
                lemma_starting_within(else_, a, p + sn(cond@) + sn(then@) + 2, key, c);
            }
        },
        NodeKind::Paren { inner } => {
            if starting_at(inner, a, p + 1, key).contains(c) {
                lemma_starting_within(inner, a, p + 1, key, c);
            }
        },
        NodeKind::Index { array, index } => {
            if starting_at(array, a, p, key).contains(c) {
                lemma_starting_within(array, a, p, key, c);
            }
            if starting_at(index, a, p + sn(array@) + 1, key).contains(c) {
                lemma_starting_within(index, a, p + sn(array@) + 1, key, c);
            }
        },
        NodeKind::Member { object, field } => {
            if starting_at(object, a, p, key).contains(c) {
                lemma_starting_within(object, a, p, key, c);
            }
        },
        NodeKind::Call { callee, args } => {
            let q = p + sn(callee@) + 1;
            if starting_at(callee, a, p, key).contains(c) {
                lemma_starting_within(callee, a, p, key, c);
            } else if args_starting_at(args@, args@.len() as int, a, q, key).contains(c) {
                lemma_among_within(args@, args@.len() as int, a, q, key, c);
            }
        },
        _ => {},
    }
}

proof fn lemma_among_within(
    args: Seq<Arc<Node>>,
    k: int,
    a: Seq<Tok>,
    p: int,
    key: u64,
    c: Arc<Node>,
)
    requires
        args_starting_at(args, k, a, p, key).contains(c),
    ensures
        exists|i: int| 0 <= i < args.len() && within(&*(#[trigger] args[i]), &*c),
    decreases args, k,
{
    if 0 < k <= args.len() {
        let q = at(p, norms(shapes(args)), k - 1);
        if starting_at(args[k - 1], a, q, key).contains(c) {
            lemma_starting_within(args[k - 1], a, q, key, c);
            assert(within(&*args[k - 1], &*c));
        } else {
            lemma_among_within(args, k - 1, a, p, key, c);
        }
    }
}

/// Subtrees of a grouped tree are grouped.
pub proof fn lemma_within_grouped(n: &Node, c: &Node)
    requires
        within(n, c),
        grouped(n@),
    ensures
        grouped(c@),
    decreases n,
{
    if *n != *c {
        match &n.kind {
            NodeKind::Prefix { op, child } => {
                if within(&**child, c) {
                    lemma_within_grouped(&**child, c);
                }
            },
            NodeKind::Binary { op, left, right } => {
                assert(chain_kind(*op) ==> grouped_part(left@, *op) && grouped_part(right@, *op));
                if within(&**left, c) {
                    lemma_within_grouped(&**left, c);
                }
                if within(&**right, c) {
                    lemma_within_grouped(&**right, c);
                }
            },
            NodeKind::Ternary { cond, then, else_ } => {
                if within(&**cond, c) {
                    lemma_within_grouped(&**cond, c);
                }
                if within(&**then, c) {
                    lemma_within_grouped(&**then, c);
                }
                if within(&**else_, c) {
                    lemma_within_grouped(&**else_, c);
                }
            },
            NodeKind::Paren { inner } => {
                if within(&**inner, c) {
                    lemma_within_grouped(&**inner, c);
                }
            },
            NodeKind::Index { array, index } => {
                if within(&**array, c) {
                    lemma_within_grouped(&**array, c);
                }
                if within(&**index, c) {
                    lemma_within_grouped(&**index, c);
                }
            },
            NodeKind::Member { object, field } => {
                if within(&**object, c) {
                    lemma_within_grouped(&**object, c);
                }
            },
            NodeKind::Call { callee, args } => {
                if within(&**callee, c) {
                    lemma_within_grouped(&**callee, c);
                } else {
                    let i = choose|i: int| 0 <= i < args@.len() && within(&*(#[trigger] args@[i]), c);
                    lemma_call_shape(n);
                    assert(grouped(n@.kind->args[i]));
                    lemma_within_grouped(&*args@[i], c);
                }
            },
            _ => {},
        }
    }
}

/// Where the chains of a tree are balanced, so are those of its subtrees.
pub proof fn lemma_within_levelled(n: &Node, c: &Node)
    requires
        within(n, c),
        levelled(n@),
    ensures
        levelled(c@),
    decreases n,
{
    if *n != *c {
        match &n.kind {
            NodeKind::Prefix { op, child } => {
                if within(&**child, c) {
                    lemma_within_levelled(&**child, c);
                }
            },
            NodeKind::Binary { op, left, right } => {
                if within(&**left, c) {
                    lemma_within_levelled(&**left, c);
                }
                if within(&**right, c) {
                    lemma_within_levelled(&**right, c);
                }
            },
            NodeKind::Ternary { cond, then, else_ } => {
                if within(&**cond, c) {
                    lemma_within_levelled(&**cond, c);
                }
                if within(&**then, c) {
                    lemma_within_levelled(&**then, c);
                }
                if within(&**else_, c) {
                    lemma_within_levelled(&**else_, c);
                }
            },
            NodeKind::Paren { inner } => {
                if within(&**inner, c) {
                    lemma_within_levelled(&**inner, c);
                }
            },
            NodeKind::Index { array, index } => {
                if within(&**array, c) {
                    lemma_within_levelled(&**array, c);
                }
                if within(&**index, c) {
                    lemma_within_levelled(&**index, c);
                }
            },
            NodeKind::Member { object, field } => {
                if within(&**object, c) {
                    lemma_within_levelled(&**object, c);
                }
            },
            NodeKind::Call { callee, args } => {
                if within(&**callee, c) {
                    lemma_within_levelled(&**callee, c);
                } else {
                    let i = choose|i: int| 0 <= i < args@.len() && within(&*(#[trigger] args@[i]), c);
                    lemma_call_shape(n);
                    assert(levelled(n@.kind->args[i]));
                    lemma_within_levelled(&*args@[i], c);
                }
            },
            _ => {},
        }
    }
}

/// All subtrees of a parsed tree are reusable in their bands.
pub proof fn lemma_parsed_bands(tree: Arc<Node>, src: Seq<u8>)
    requires
        src.len() <= u32::MAX,
        parsed(*tree, src),
    ensures
        toks_ok(lex(src)),
        bands_ok(lex(src), 0, tree@),
{
    let a = lex(src);
    lemma_lex_toks(src);
    lemma_parse(a, 0, 0);
    lemma_deep_parse(a, 0, 0);
    lemma_bands(a, 0, tree@);
}

} // verus!
