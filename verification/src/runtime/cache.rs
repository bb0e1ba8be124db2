//! The subtrees of a parse that may be reused, by the byte they start at.

use rustc_hash::FxHashMap;
use std::sync::Arc;
use vstd::prelude::*;
use vstd::string::*;

use crate::index::{entries, index_get, index_insert, index_new};
use crate::runtime::ast::{Node, NodeKind};
use crate::runtime::cursor::{lemma_next_token, lex_token, next_token};
use crate::runtime::grammar::{stands, tree_stands};
use crate::runtime::table::{Table, Token};

verus! {

/// The nodes of the tree at byte `s`, but for atoms, that start at byte `key`:
/// outermost first.
pub open spec fn starting(t: Table, b: Seq<u8>, s: int, n: Arc<Node>, key: u64) -> Seq<Arc<Node>>
    decreases n,
{
    let k = next_token(t, b, s);
    let own = if s == key && !(n.kind is Atom) {
        seq![n]
    } else {
        Seq::empty()
    };
    own + match n.kind {
        NodeKind::Atom(a) => Seq::empty(),
        NodeKind::Prefix { op, child } => starting(
            t,
            b,
            next_token(t, b, k.end as int).start as int,
            child,
            key,
        ),
        NodeKind::Postfix { op, child } => starting(t, b, s, child, key),
        NodeKind::Binary { op, left, right } => {
            let o = next_token(t, b, s + left.width);
            starting(t, b, s, left, key) + starting(
                t,
                b,
                next_token(t, b, o.end as int).start as int,
                right,
                key,
            )
        },
        NodeKind::Paren { inner } => starting(
            t,
            b,
            next_token(t, b, k.end as int).start as int,
            inner,
            key,
        ),
    }
}

/// What starts at a byte stands there, and lies in the tree.
pub proof fn lemma_starting(t: Table, b: Seq<u8>, s: int, n: Arc<Node>, key: u64)
    requires
        t.wf(),
        b.len() <= u32::MAX,
        stands(t, b, s, *n),
    ensures
        forall|i: int|
            0 <= i < starting(t, b, s, n, key).len() ==> tree_stands(
                t,
                b,
                key as int,
                #[trigger] starting(t, b, s, n, key)[i],
            ) && starting(t, b, s, n, key)[i].width <= n.width,
        starting(t, b, s, n, key).len() > 0 ==> s <= key < s + n.width,
    decreases n,
{
    lemma_next_token(t, b, s);
    let k = next_token(t, b, s);
    match n.kind {
        NodeKind::Atom(a) => {},
        NodeKind::Prefix { op, child } => {
            lemma_next_token(t, b, k.end as int);
            let c = next_token(t, b, k.end as int).start as int;
            assert(stands(t, b, c, *child));
            lemma_starting(t, b, c, child, key);
        },
        NodeKind::Postfix { op, child } => {
            assert(stands(t, b, s, *child));
            lemma_next_token(t, b, s + child.width);
            lemma_starting(t, b, s, child, key);
        },
        NodeKind::Binary { op, left, right } => {
            assert(stands(t, b, s, *left));
            lemma_next_token(t, b, s + left.width);
            let o = next_token(t, b, s + left.width);
            lemma_next_token(t, b, o.end as int);
            let c = next_token(t, b, o.end as int).start as int;
            assert(stands(t, b, c, *right));
            lemma_starting(t, b, s, left, key);
            lemma_starting(t, b, c, right, key);
        },
        NodeKind::Paren { inner } => {
            lemma_next_token(t, b, k.end as int);
            let c = next_token(t, b, k.end as int).start as int;
            assert(stands(t, b, c, *inner));
            lemma_next_token(t, b, c + inner.width);
            lemma_starting(t, b, c, inner, key);
        },
    }
}

/// Subtrees that start at one byte come widest first.
pub proof fn law_widest_first(
    t: Table,
    b: Seq<u8>,
    s: int,
    n: Arc<Node>,
    key: u64,
    i: int,
    j: int,
)
    requires
        t.wf(),
        b.len() <= u32::MAX,
        stands(t, b, s, *n),
        0 <= i < j < starting(t, b, s, n, key).len(),
    ensures
        starting(t, b, s, n, key)[i].width > starting(t, b, s, n, key)[j].width,
    decreases n,
{
    let all = starting(t, b, s, n, key);
    lemma_next_token(t, b, s);
    let k = next_token(t, b, s);
    lemma_starting(t, b, s, n, key);
    match n.kind {
        NodeKind::Atom(a) => {},
        NodeKind::Prefix { op, child } => {
            lemma_next_token(t, b, k.end as int);
            let c = next_token(t, b, k.end as int).start as int;
            assert(stands(t, b, c, *child));
            lemma_starting(t, b, c, child, key);
            let sub = starting(t, b, c, child, key);
            assert(sub.len() > 0);
            assert(key != s);
            assert(all =~= sub);
            law_widest_first(t, b, c, child, key, i, j);
        },
        NodeKind::Postfix { op, child } => {
            assert(stands(t, b, s, *child));
            lemma_next_token(t, b, s + child.width);
            lemma_starting(t, b, s, child, key);
            let sub = starting(t, b, s, child, key);
            if s == key {
                assert(all =~= seq![n] + sub);
                assert(all[j] == sub[j - 1]);
                if i > 0 {
                    assert(all[i] == sub[i - 1]);
                    law_widest_first(t, b, s, child, key, i - 1, j - 1);
                }
            } else {
                assert(all =~= sub);
                law_widest_first(t, b, s, child, key, i, j);
            }
        },
        NodeKind::Binary { op, left, right } => {
            assert(stands(t, b, s, *left));
            lemma_next_token(t, b, s + left.width);
            let o = next_token(t, b, s + left.width);
            lemma_next_token(t, b, o.end as int);
            let c = next_token(t, b, o.end as int).start as int;
            assert(stands(t, b, c, *right));
            lemma_starting(t, b, s, left, key);
            lemma_starting(t, b, c, right, key);
            let x = starting(t, b, s, left, key);
            let y = starting(t, b, c, right, key);
            if y.len() > 0 {
                assert(x.len() == 0);
                assert(all =~= y);
                law_widest_first(t, b, c, right, key, i, j);
            } else if s == key {
                assert(all =~= seq![n] + x);
                assert(all[j] == x[j - 1]);
                if i > 0 {
                    assert(all[i] == x[i - 1]);
                    law_widest_first(t, b, s, left, key, i - 1, j - 1);
                }
            } else {
                assert(all =~= x);
                law_widest_first(t, b, s, left, key, i, j);
            }
        },
        NodeKind::Paren { inner } => {
            lemma_next_token(t, b, k.end as int);
            let c = next_token(t, b, k.end as int).start as int;
            assert(stands(t, b, c, *inner));
            lemma_next_token(t, b, c + inner.width);
            lemma_starting(t, b, c, inner, key);
            let sub = starting(t, b, c, inner, key);
            assert(sub.len() > 0);
            assert(key != s);
            assert(all =~= sub);
            law_widest_first(t, b, c, inner, key, i, j);
        },
    }
}

/// Candidates for reuse, by the byte they start at.
pub struct ReuseCache {
    index: FxHashMap<u64, usize>,
    lists: Vec<Vec<Arc<Node>>>,
}

impl ReuseCache {
    pub closed spec fn wf(&self) -> bool {
        &&& forall|k: u64| #[trigger]
            entries(self.index).contains_key(k) ==> entries(self.index)[k] < self.lists@.len()
        &&& forall|k: u64, l: u64|
            entries(self.index).contains_key(k) && entries(self.index).contains_key(l) && k != l
                ==> #[trigger] entries(self.index)[k] != #[trigger] entries(self.index)[l]
    }

    /// The candidates that start at byte `key`.
    pub closed spec fn cands(&self, key: u64) -> Seq<Arc<Node>> {
        if entries(self.index).contains_key(key) {
            self.lists@[entries(self.index)[key] as int]@
        } else {
            Seq::empty()
        }
    }

    /// Every candidate stands in `b` where it is filed.
    pub open spec fn ok(&self, t: Table, b: Seq<u8>) -> bool {
        &&& self.wf()
        &&& forall|key: u64, i: int|
            0 <= i < self.cands(key).len() ==> tree_stands(
                t,
                b,
                key as int,
                #[trigger] self.cands(key)[i],
            )
    }

    fn new() -> (r: ReuseCache)
        ensures
            r.wf(),
            forall|key: u64| #[trigger] r.cands(key) == Seq::<Arc<Node>>::empty(),
    {
        ReuseCache { index: index_new(), lists: Vec::new() }
    }

    /// The candidates that start at byte `key`.
    pub fn inner(&self, key: u64) -> (r: Option<&Vec<Arc<Node>>>)
        requires
            self.wf(),
        ensures
            match r {
                Some(v) => v@ == self.cands(key),
                None => self.cands(key).len() == 0,
            },
    {
        match index_get(&self.index, key) {
            Some(i) => Some(&self.lists[i]),
            None => None,
        }
    }

    /// File a candidate under byte `key`.
    fn file(&mut self, key: u64, n: Arc<Node>)
        requires
            old(self).wf(),
        ensures
            final(self).wf(),
            forall|k: u64| #[trigger]
                final(self).cands(k) == (if k == key {
                    old(self).cands(k).push(n)
                } else {
                    old(self).cands(k)
                }),
    {
        let ghost before = *self;
        match index_get(&self.index, key) {
            Some(i) => {
                self.lists[i].push(n);
            },
            None => {
                let i: usize = self.lists.len();
                let mut list: Vec<Arc<Node>> = Vec::new();
                list.push(n);
                self.lists.push(list);
                index_insert(&mut self.index, key, i);
                assert(before.cands(key) =~= Seq::empty());
                assert(before.cands(key).push(n) =~= seq![n]);
            },
        }
    }

    /// The cache of `old_tree`, the parse of `old_src`.
    pub fn build(t: &Table, old_tree: &Arc<Node>, old_src: &str) -> (r: ReuseCache)
        requires
            t.wf(),
            old_src.spec_bytes().len() <= u32::MAX,
            tree_stands(
                *t,
                old_src.spec_bytes(),
                next_token(*t, old_src.spec_bytes(), 0).start as int,
                *old_tree,
            ),
        ensures
            r.ok(*t, old_src.spec_bytes()),
            forall|key: u64| #[trigger]
                r.cands(key) == starting(
                    *t,
                    old_src.spec_bytes(),
                    next_token(*t, old_src.spec_bytes(), 0).start as int,
                    *old_tree,
                    key,
                ),
    {
        let bytes = old_src.as_bytes();
        let ghost b = bytes@;
        let mut cache = ReuseCache::new();
        let first: Token = lex_token(t, bytes, 0);
        let ghost s = first.start as int;
        walk_cache(t, bytes, first.start, old_tree, &mut cache);
        proof {
            assert forall|key: u64| #[trigger] cache.cands(key) == starting(*t, b, s, *old_tree, key) by {
                assert(Seq::<Arc<Node>>::empty() + starting(*t, b, s, *old_tree, key) =~= starting(
                    *t,
                    b,
                    s,
                    *old_tree,
                    key,
                ));
            }
            assert forall|key: u64, i: int| 0 <= i < cache.cands(key).len() implies tree_stands(
                *t,
                b,
                key as int,
                #[trigger] cache.cands(key)[i],
            ) by {
                lemma_starting(*t, b, s, *old_tree, key);
                assert(cache.cands(key)[i] == starting(*t, b, s, *old_tree, key)[i]);
            }
        }
        cache
    }
}

/// File the nodes of the tree at byte `s`.
#[verifier::rlimit(40)]
fn walk_cache(t: &Table, bytes: &[u8], s: u32, node: &Arc<Node>, cache: &mut ReuseCache)
    requires
        t.wf(),
        bytes@.len() <= u32::MAX,
        tree_stands(*t, bytes@, s as int, *node),
        old(cache).wf(),
    ensures
        final(cache).wf(),
        forall|key: u64| #[trigger]
            final(cache).cands(key) == old(cache).cands(key) + starting(
                *t,
                bytes@,
                s as int,
                *node,
                key,
            ),
    decreases node,
{
    let ghost b = bytes@;
    let ghost c0 = *cache;
    let k: Token = lex_token(t, bytes, s as usize);
    proof {
        lemma_next_token(*t, b, s as int);
        assert(stands(*t, b, s as int, **node));
    }
    match &node.kind {
        NodeKind::Atom(_) => {},
        _ => {
            cache.file(s as u64, node.clone());
        },
    }
    let ghost own = |key: u64|
        if s == key && !(node.kind is Atom) {
            seq![*node]
        } else {
            Seq::empty()
        };
    proof {
        assert forall|key: u64| #[trigger] cache.cands(key) == c0.cands(key) + own(key) by {
            assert(c0.cands(key).push(*node) =~= c0.cands(key) + seq![*node]);
            assert(c0.cands(key) + Seq::<Arc<Node>>::empty() =~= c0.cands(key));
        }
    }
    match &node.kind {
        NodeKind::Atom(_) => {},
        NodeKind::Prefix { op: _, child } => {
            let c: Token = lex_token(t, bytes, k.end as usize);
            walk_cache(t, bytes, c.start, child, cache);
        },
        NodeKind::Postfix { op: _, child } => {
            walk_cache(t, bytes, s, child, cache);
        },
        NodeKind::Binary { op: _, left, right } => {
            let e: u32 = s + left.width;
            let o: Token = lex_token(t, bytes, e as usize);
            let c: Token = lex_token(t, bytes, o.end as usize);
            let ghost c1 = *cache;
            walk_cache(t, bytes, s, left, cache);
            let ghost c2 = *cache;
            walk_cache(t, bytes, c.start, right, cache);
            proof {
                assert forall|key: u64| #[trigger] cache.cands(key) == c0.cands(key) + starting(
                    *t,
                    b,
                    s as int,
                    *node,
                    key,
                ) by {
                    let x = starting(*t, b, s as int, *left, key);
                    let y = starting(*t, b, c.start as int, *right, key);
                    assert(c2.cands(key) == c1.cands(key) + x);
                    assert(c1.cands(key) == c0.cands(key) + own(key));
                    assert(((c0.cands(key) + own(key)) + x) + y =~= c0.cands(key) + (own(key) + (x
                        + y)));
                }
            }
        },
        NodeKind::Paren { inner } => {
            let c: Token = lex_token(t, bytes, k.end as usize);
            walk_cache(t, bytes, c.start, inner, cache);
        },
    }
    proof {
        assert forall|key: u64| #[trigger] cache.cands(key) == c0.cands(key) + starting(
            *t,
            b,
            s as int,
            *node,
            key,
        ) by {
            let all = starting(*t, b, s as int, *node, key);
            if let NodeKind::Binary { op, left, right } = node.kind {
            } else {
                assert(c0.cands(key) + all =~= (c0.cands(key) + own(key)) + all.skip(
                    own(key).len() as int,
                ));
                assert(own(key) + Seq::<Arc<Node>>::empty() =~= own(key));
                assert(cache.cands(key) =~= c0.cands(key) + all);
            }
        }
    }
}

} // verus!
