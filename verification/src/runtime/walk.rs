//! The walk of a parse that may reuse subtrees: which it takes, and what it
//! counts.

use std::sync::Arc;
use vstd::prelude::*;

use crate::expr::edit::Edit;
use crate::expr::walk::{bumped, raised};
use crate::runtime::ast::{node_count, Node};
use crate::runtime::cache::{starting, ReuseCache};
use crate::runtime::cursor::next_token;
use crate::runtime::grammar::{expr, nud};
use crate::runtime::pratt_core::{earlier, reusable, ReparseStats};
use crate::runtime::table::{Table, MIN_PREC};

verus! {

/// An earlier source, the edit since, and the subtrees of its parse by the
/// byte they start at.
pub ghost struct Earlier {
    pub src: Seq<u8>,
    pub edit: Edit,
    pub cands: spec_fn(u64) -> Seq<Arc<Node>>,
}

/// What a parse goes by: a grammar, a source, and what may be reused.
pub ghost struct World {
    pub table: Table,
    pub src: Seq<u8>,
    pub earlier: Option<Earlier>,
}

/// A parse of `old` after `edit` that reuses what `cache` holds.
pub open spec fn cache_world(t: Table, cache: ReuseCache, old: Seq<u8>, edit: Edit) -> World {
    World {
        table: t,
        src: edit.applied(old),
        earlier: Some(Earlier { src: old, edit, cands: |key: u64| cache.cands(key) }),
    }
}

/// A parse of `old` after `edit` that reuses the subtrees of `tree`, the parse
/// of `old`.
pub open spec fn tree_world(t: Table, tree: Arc<Node>, old: Seq<u8>, edit: Edit) -> World {
    World {
        table: t,
        src: edit.applied(old),
        earlier: Some(
            Earlier {
                src: old,
                edit,
                cands: |key: u64|
                    starting(t, old, next_token(t, old, 0).start as int, tree, key),
            },
        ),
    }
}

/// What is counted before the first token is passed: it has been lexed.
pub open spec fn at_first() -> ReparseStats {
    ReparseStats {
        nodes_reused: 0,
        nodes_parsed: 0,
        reuse_attempts: 0,
        reuse_rejected_precedence: 0,
        reuse_rejected_changed: 0,
        tokens_lexed: 1,
    }
}

/// One more node parsed.
pub open spec fn parsed_one(st: ReparseStats) -> ReparseStats {
    ReparseStats { nodes_parsed: bumped(st.nodes_parsed), ..st }
}

/// One more token lexed.
pub open spec fn lexed_one(st: ReparseStats) -> ReparseStats {
    ReparseStats { tokens_lexed: bumped(st.tokens_lexed), ..st }
}

/// One more attempt to reuse a subtree.
pub open spec fn attempted(st: ReparseStats) -> ReparseStats {
    ReparseStats { reuse_attempts: bumped(st.reuse_attempts), ..st }
}

/// A subtree of `n` nodes was taken, and the token after it lexed.
pub open spec fn took(st: ReparseStats, n: int) -> ReparseStats {
    lexed_one(ReparseStats { nodes_reused: raised(st.nodes_reused, n), ..attempted(st) })
}

/// Subtree `n` was refused at precedence `m`: for its band, or for what is
/// around it.
pub open spec fn refused(st: ReparseStats, m: u32, n: Arc<Node>) -> ReparseStats {
    let st = attempted(st);
    if n.stop_lbp <= m < n.m_spine {
        ReparseStats { reuse_rejected_changed: bumped(st.reuse_rejected_changed), ..st }
    } else {
        ReparseStats { reuse_rejected_precedence: bumped(st.reuse_rejected_precedence), ..st }
    }
}

impl World {
    /// Where the token after byte `at` starts.
    pub open spec fn here(&self, at: int) -> int {
        next_token(self.table, self.src, at).start as int
    }

    /// The subtree `n`, which started at byte `s`, may stand at the token after
    /// byte `at`, for an expression of precedence `m`.
    pub open spec fn may_stand(&self, x: Earlier, at: int, m: u32, s: int, n: Arc<Node>) -> bool {
        reusable(self.table, x.src, self.src, x.edit, m, s, self.here(at), n)
    }

    /// A subtree may stand at the token after byte `at`.
    pub open spec fn some_reusable(&self, at: int, m: u32) -> bool {
        self.earlier matches Some(x) && earlier(x.edit, self.here(at)) matches Some(s) && exists|
            j: int,
        |
            0 <= j < (x.cands)(s as u64).len() && self.may_stand(
                x,
                at,
                m,
                s,
                #[trigger] (x.cands)(s as u64)[j],
            )
    }

    /// `n` is subtree `i`, the first that may stand at the token after byte
    /// `at`.
    pub open spec fn first(
        &self,
        x: Earlier,
        at: int,
        m: u32,
        s: int,
        n: Arc<Node>,
        i: int,
    ) -> bool {
        &&& 0 <= i < (x.cands)(s as u64).len()
        &&& n == (x.cands)(s as u64)[i]
        &&& self.may_stand(x, at, m, s, n)
        &&& forall|j: int|
            0 <= j < i ==> !self.may_stand(x, at, m, s, #[trigger] (x.cands)(s as u64)[j])
    }

    /// `n` is the first subtree that may stand at the token after byte `at`.
    pub open spec fn taken(&self, at: int, m: u32, n: Arc<Node>) -> bool {
        self.earlier matches Some(x) && earlier(x.edit, self.here(at)) matches Some(s) && exists|
            i: int,
        | #[trigger]
            self.first(x, at, m, s, n, i)
    }

    // ---- What is counted -----------------------------------------------

    /// The counts after subtrees from number `i` on were tried, and whether one
    /// was taken.
    #[verifier::opaque]
    pub open spec fn tried(
        &self,
        x: Earlier,
        at: int,
        m: u32,
        s: int,
        i: int,
        st: ReparseStats,
    ) -> (ReparseStats, bool)
        decreases (x.cands)(s as u64).len() - i,
    {
        let cands = (x.cands)(s as u64);
        if i < 0 || i >= cands.len() {
            (st, false)
        } else if self.may_stand(x, at, m, s, cands[i]) {
            (took(st, node_count(*cands[i]) as int), true)
        } else {
            self.tried(x, at, m, s, i + 1, refused(st, m, cands[i]))
        }
    }

    /// The counts after what can be reused after byte `at` was tried.
    pub open spec fn looked_up(&self, at: int, m: u32, st: ReparseStats) -> (ReparseStats, bool) {
        match self.earlier {
            None => (st, false),
            Some(x) => match earlier(x.edit, self.here(at)) {
                None => (st, false),
                Some(s) => self.tried(x, at, m, s, 0, st),
            },
        }
    }

    /// The counts after the expression after byte `at` was parsed with
    /// precedence `m`: a subtree is taken if one can be, else an operand is
    /// parsed and the operators after it.
    #[verifier::opaque]
    pub open spec fn counted(&self, at: int, m: u32, st: ReparseStats) -> ReparseStats
        decreases self.src.len() - at, 1int,
    {
        let (st, found) = self.looked_up(at, m, st);
        if found {
            st
        } else {
            match nud(self.table, self.src, at) {
                Ok((f, e)) => if at < e <= self.src.len() {
                    self.counted_loop(e, m, self.counted_operand(at, st))
                } else {
                    st
                },
                Err(_) => st,
            }
        }
    }

    /// The counts after the operand after byte `at`.
    #[verifier::opaque]
    pub open spec fn counted_operand(&self, at: int, st: ReparseStats) -> ReparseStats
        decreases self.src.len() - at, 0int,
    {
        let k = next_token(self.table, self.src, at);
        let st = lexed_one(parsed_one(st));
        if !(at < k.end <= self.src.len()) || self.table.atom(k.kind) {
            st
        } else {
            match self.table.prefix_of(k.kind) {
                Some(p) => self.counted(k.end as int, p, st),
                None => lexed_one(self.counted(k.end as int, MIN_PREC, st)),
            }
        }
    }

    /// The counts after the operators that bind above `m`, after byte `at`. An
    /// operator whose chains may be regrouped makes no node until its chain is
    /// whole, and that is not counted.
    #[verifier::opaque]
    pub open spec fn counted_loop(&self, at: int, m: u32, st: ReparseStats) -> ReparseStats
        decreases self.src.len() - at, 0int,
    {
        let k = next_token(self.table, self.src, at);
        if self.table.left_power(k.kind) <= m || !(at < k.end <= self.src.len()) {
            st
        } else if self.table.postfix_of(k.kind) is Some {
            self.counted_loop(k.end as int, m, lexed_one(parsed_one(st)))
        } else {
            let p = self.table.right_power(k.kind);
            let st = self.counted(k.end as int, p, self.passed(at, st));
            match expr(self.table, self.src, k.end as int, p) {
                Ok((f, e)) => if k.end < e <= self.src.len() {
                    self.counted_loop(e, m, st)
                } else {
                    st
                },
                Err(_) => st,
            }
        }
    }

    /// The counts after the infix operator after byte `at`.
    pub open spec fn passed(&self, at: int, st: ReparseStats) -> ReparseStats {
        if self.table.regroups(next_token(self.table, self.src, at).kind) {
            lexed_one(st)
        } else {
            lexed_one(parsed_one(st))
        }
    }

    pub proof fn lemma_tried(
        &self,
        x: Earlier,
        at: int,
        m: u32,
        s: int,
        i: int,
        st: ReparseStats,
    )
        ensures
            ({
                let cands = (x.cands)(s as u64);
                self.tried(x, at, m, s, i, st) == (if i < 0 || i >= cands.len() {
                    (st, false)
                } else if self.may_stand(x, at, m, s, cands[i]) {
                    (took(st, node_count(*cands[i]) as int), true)
                } else {
                    self.tried(x, at, m, s, i + 1, refused(st, m, cands[i]))
                })
            }),
    {
        reveal(World::tried);
    }

    pub proof fn lemma_counted(&self, at: int, m: u32, st: ReparseStats)
        ensures
            self.looked_up(at, m, st).1 ==> self.counted(at, m, st) == self.looked_up(at, m, st).0,
            !self.looked_up(at, m, st).1 ==> (nud(self.table, self.src, at) matches Ok((f, e)) ==> at
                < e <= self.src.len() ==> self.counted(at, m, st) == self.counted_loop(
                e,
                m,
                self.counted_operand(at, self.looked_up(at, m, st).0),
            )),
    {
        reveal(World::counted);
        reveal(World::counted_operand);
        reveal(World::counted_loop);
    }

    pub proof fn lemma_counted_operand(&self, at: int, st: ReparseStats)
        ensures
            ({
                let k = next_token(self.table, self.src, at);
                let then = lexed_one(parsed_one(st));
                at < k.end <= self.src.len() ==> self.counted_operand(at, st) == (
                if self.table.atom(k.kind) {
                    then
                } else {
                    match self.table.prefix_of(k.kind) {
                        Some(p) => self.counted(k.end as int, p, then),
                        None => lexed_one(self.counted(k.end as int, MIN_PREC, then)),
                    }
                })
            }),
    {
        reveal(World::counted);
        reveal(World::counted_operand);
        reveal(World::counted_loop);
    }

    pub proof fn lemma_counted_loop(&self, at: int, m: u32, st: ReparseStats)
        ensures
            ({
                let k = next_token(self.table, self.src, at);
                let p = self.table.right_power(k.kind);
                let c = self.counted_loop(at, m, st);
                if self.table.left_power(k.kind) <= m {
                    c == st
                } else if self.table.postfix_of(k.kind) is Some {
                    at < k.end <= self.src.len() ==> c == self.counted_loop(
                        k.end as int,
                        m,
                        lexed_one(parsed_one(st)),
                    )
                } else {
                    at < k.end <= self.src.len() ==> (expr(
                        self.table,
                        self.src,
                        k.end as int,
                        p,
                    ) matches Ok((f, e)) ==> k.end < e <= self.src.len() ==> c
                        == self.counted_loop(
                        e,
                        m,
                        self.counted(k.end as int, p, self.passed(at, st)),
                    ))
                }
            }),
    {
        reveal(World::counted);
        reveal(World::counted_operand);
        reveal(World::counted_loop);
    }
}

} // verus!
