//! The walk of a reparse: which cached subtrees it takes, and what it counts.

use std::sync::Arc;
use vstd::prelude::*;
use vstd::string::*;

use crate::expr::ast::{node_count, Node, NodeKind};
use crate::expr::cache::{entry_at, ReuseCache};
use crate::expr::edit::Edit;
use crate::expr::grammar::{
    lb, min_of, no_spine, nud_at, parse_at, stamp, step_at, Form, Out,
};
use crate::expr::incremental::ReparseStats;
use crate::expr::lexer::{lex, models, Tok, Token, TokenKind};
use crate::expr::op::{chain_kind, lbp_of, prefix_rbp_of, rbp_of};
use crate::expr::reuse::{first_is, kinds_agree, same_boundary, Reuse};
use crate::expr::shape::flat;
use crate::expr::splice::{chain_edited, operand_at, splices_chain};
use crate::expr::splice_general::{mid_bounds, splices_general};

verus! {

/// How much tighter than `m` an operator can bind.
pub open spec fn room(m: int) -> int {
    if m < 0 {
        100
    } else if m < 100 {
        100 - m
    } else {
        0
    }
}

/// What a parse goes by: a source, its tokens, and what may be reused.
pub ghost struct World<'a> {
    pub src: Seq<u8>,
    pub tokens: Seq<Token>,
    pub reuse: Option<Reuse<'a>>,
}

/// The token that a cached subtree stands at.
pub open spec fn entry_token(a: Seq<Tok>, key: u64, n: &Arc<Node>) -> int {
    choose|p: int| entry_at(a, p, key, **n)
}

/// One more.
pub open spec fn bumped(x: u32) -> u32 {
    if x == u32::MAX {
        x
    } else {
        (x + 1) as u32
    }
}

/// `n` more.
pub open spec fn raised(x: u32, n: int) -> u32 {
    if x + n > u32::MAX {
        u32::MAX
    } else {
        (x + n) as u32
    }
}

/// One more node parsed.
pub open spec fn parsed_one(st: ReparseStats) -> ReparseStats {
    ReparseStats { nodes_parsed: bumped(st.nodes_parsed), ..st }
}

/// `n` more nodes reused.
pub open spec fn reused(st: ReparseStats, n: int) -> ReparseStats {
    ReparseStats { nodes_reused: raised(st.nodes_reused, n), ..st }
}

/// One more attempt to reuse a subtree.
pub open spec fn attempted(st: ReparseStats) -> ReparseStats {
    ReparseStats { reuse_attempts: bumped(st.reuse_attempts), ..st }
}

impl<'a> World<'a> {
    /// The walk is over the tokens of `old_src` after `edit`, with `cache` to
    /// reuse from.
    pub open spec fn goes_by(
        &self,
        cache: &'a ReuseCache,
        old_src: &'a str,
        edit: &'a Edit,
        lookahead: Option<usize>,
    ) -> bool {
        &&& self.src == edit.applied(old_src.spec_bytes())
        &&& models(self.tokens, self.src) == lex(self.src)
        &&& self.reuse matches Some(r) && {
            &&& r.old_src == old_src
            &&& r.edit == edit
            &&& r.cache == cache
            &&& r.lookahead == lookahead
            &&& lookahead is Some ==> models(r.old_tokens@, old_src.spec_bytes()) == lex(
                old_src.spec_bytes(),
            )
        }
    }

    pub open spec fn toks(&self) -> Seq<Tok> {
        models(self.tokens, self.src)
    }

    /// Token `k` is the first one from token `pos` on that starts at or after
    /// `byte`.
    pub open spec fn comes_next(&self, pos: int, byte: int, k: int) -> bool {
        &&& pos <= k < self.toks().len()
        &&& self.toks()[k].start >= byte
        &&& forall|j: int| pos <= j < k ==> (#[trigger] self.toks()[j]).start < byte
    }

    /// The cached subtree `cand`, once at byte `start`, is unedited, the bytes
    /// around it are the same where token `pos` starts, and with a lookahead
    /// what follows is of the same kinds; with one of no token, it binds as what
    /// ended the subtree.
    pub open spec fn recurs(&self, reuse: Reuse<'a>, pos: int, cand: Arc<Node>, start: int) -> bool {
        let old = reuse.old_src.spec_bytes();
        let end = start + cand.width;
        let ns = self.toks()[pos].start;
        let ne = ns + cand.width;
        &&& reuse.edit.untouched(start, end)
        &&& same_boundary(old, self.src, start, end, ns, ne)
        &&& reuse.lookahead matches Some(n) ==> exists|k: int, q: int| #[trigger]
            self.comes_next(pos, ne, k) && #[trigger] first_is(reuse.old_tokens@, end as u32, q)
                && kinds_agree(reuse.old_tokens@, q, self.tokens, k, n as int) && (n == 0 ==> lb(
                self.toks(),
                k,
            ) == cand.stop_lbp)
    }

    /// The cached subtree `cand`, once at byte `start`, can stand for the
    /// expression at token `pos` with precedence `m`. Its band holds `m`; and
    /// it is unedited, the bytes around it are the same, and what follows
    /// binds as what ended it (or, with a lookahead, is of the same kinds), or
    /// it is a chain that can be spliced around the edit.
    pub open spec fn reusable(
        &self,
        reuse: Reuse<'a>,
        pos: int,
        cand: Arc<Node>,
        start: int,
        m: int,
    ) -> bool {
        let (a, b) = (lex(reuse.old_src.spec_bytes()), self.toks());
        let ne = b[pos].start + cand.width;
        match reuse.lookahead {
            None => {
                &&& cand.stop_lbp <= m < cand.m_spine
                &&& if reuse.edit.untouched(start, start + cand.width) {
                    self.recurs(reuse, pos, cand, start) && exists|k: int| #[trigger]
                        self.comes_next(pos, ne, k) && lb(b, k) == cand.stop_lbp
                } else {
                    ||| splices_chain(reuse, b, pos, cand, start)
                    ||| splices_general(
                        reuse,
                        b,
                        pos,
                        cand,
                        start,
                        entry_token(a, start as u64, &cand),
                    )
                }
            },
            Some(n) => {
                &&& cand.stop_lbp <= m <= cand.m_floor
                &&& self.recurs(reuse, pos, cand, start)
            },
        }
    }

    /// A cached subtree can be reused at token `pos`.
    pub open spec fn some_reusable(&self, pos: int, m: int) -> bool {
        self.reuse matches Some(reuse) && exists|start: u32, i: int|
            {
                &&& reuse.edit.moved(start as int) == Some(self.toks()[pos].start)
                &&& 0 <= i < reuse.cache.by_byte.cands(start as u64).len()
                &&& self.reusable(
                    reuse,
                    pos,
                    #[trigger] reuse.cache.by_byte.cands(start as u64)[i],
                    start as int,
                    m,
                )
            }
    }

    /// `n` stands for subtree `i` of those cached at byte `start`, the first of
    /// them that can be reused: it is that subtree, if that is unedited.
    pub open spec fn taken(&self, pos: int, m: int, n: Arc<Node>, start: u32, i: int) -> bool {
        self.reuse matches Some(reuse) && {
            let cands = reuse.cache.by_byte.cands(start as u64);
            &&& 0 <= i < cands.len()
            &&& self.reusable(reuse, pos, cands[i], start as int, m)
            &&& forall|k: int|
                0 <= k < i ==> !self.reusable(reuse, pos, #[trigger] cands[k], start as int, m)
            &&& reuse.edit.untouched(start as int, start + cands[i].width) ==> n == cands[i]
        }
    }

    // ---- What is counted -----------------------------------------------

    /// Where the byte at which token `pos` starts stood before the edit.
    pub open spec fn earlier(&self, reuse: Reuse<'a>, pos: int) -> Option<int> {
        let here = self.toks()[pos].start;
        let edit = reuse.edit;
        let n = crate::expr::edit::bytes_of(edit.replacement).len();
        if here < edit.start {
            Some(here)
        } else if here >= edit.start + n {
            Some(here - edit.start - n + edit.end)
        } else {
            None
        }
    }

    /// The counts after a subtree was refused.
    pub open spec fn refused(
        &self,
        reuse: Reuse<'a>,
        pos: int,
        cand: Arc<Node>,
        start: int,
        m: int,
        st: ReparseStats,
    ) -> ReparseStats {
        let st = attempted(st);
        let by_band = match reuse.lookahead {
            None => !(cand.stop_lbp <= m < cand.m_spine),
            Some(n) => self.recurs(reuse, pos, cand, start),
        };
        if by_band {
            ReparseStats {
                reuse_rejected_precedence: bumped(st.reuse_rejected_precedence),
                ..st
            }
        } else {
            ReparseStats { reuse_rejected_changed: bumped(st.reuse_rejected_changed), ..st }
        }
    }

    /// The counts after a subtree was taken: its nodes, or those kept of it and
    /// what was counted while the rest was parsed again.
    #[verifier::opaque]
    pub open spec fn accepted(
        &self,
        reuse: Reuse<'a>,
        pos: int,
        cand: Arc<Node>,
        start: int,
        m: int,
        st: ReparseStats,
    ) -> ReparseStats
        decreases self.toks().len() - pos, room(m), 1int, 0int,
    {
        let st = attempted(st);
        let b = self.toks();
        if reuse.edit.untouched(start, start + cand.width) {
            reused(st, node_count(cand@))
        } else {
            match chain_edited(reuse, *cand, start) {
                None => st,
                Some(op) => if room(rbp_of(op) as int) >= room(m) {
                    st
                } else if splices_chain(reuse, b, pos, cand, start) {
                    let (o, os, oe) = operand_at(
                        reuse.cache.spans->0,
                        cand,
                        start,
                        start + cand.width,
                        reuse.edit.start as int,
                        reuse.edit.end as int,
                        op,
                    )->0;
                    let k = starting(b, pos, os);
                    let inner = if pos <= k <= b.len() {
                        self.counted(k, rbp_of(op) as int, st)
                    } else {
                        st
                    };
                    reused(
                        inner,
                        if node_count(cand@) >= node_count(o@) {
                            node_count(cand@) - node_count(o@)
                        } else {
                            0
                        },
                    )
                } else {
                    let p = entry_token(lex(reuse.old_src.spec_bytes()), start as u64, &cand);
                    let (from, end) = mid_bounds(
                        reuse,
                        p,
                        pos,
                        op,
                        flat(cand@, op),
                        start + cand.width,
                    );
                    let inner = if pos <= from <= b.len() {
                        self.counted_middle(op, from, end, st)
                    } else {
                        st
                    };
                    reused(
                        inner,
                        kept_nodes(
                            cand,
                            start,
                            start + cand.width,
                            reuse.edit.start as int,
                            reuse.edit.end as int,
                            op,
                        ),
                    )
                },
            }
        }
    }

    /// The counts after subtrees from number `i` on were tried, and whether one
    /// was taken.
    #[verifier::opaque]
    pub open spec fn tried(
        &self,
        reuse: Reuse<'a>,
        pos: int,
        start: int,
        i: int,
        m: int,
        st: ReparseStats,
    ) -> (ReparseStats, bool)
        decreases
                self.toks().len() - pos,
                room(m),
                2int,
                reuse.cache.by_byte.cands(start as u64).len() - i,
    {
        let cands = reuse.cache.by_byte.cands(start as u64);
        if i < 0 || i >= cands.len() {
            (st, false)
        } else if self.reusable(reuse, pos, cands[i], start, m) {
            (self.accepted(reuse, pos, cands[i], start, m, st), true)
        } else {
            self.tried(
                reuse,
                pos,
                start,
                i + 1,
                m,
                self.refused(reuse, pos, cands[i], start, m, st),
            )
        }
    }

    /// The counts after what can be reused at token `pos` was tried.
    #[verifier::opaque]
    pub open spec fn looked_up(&self, pos: int, m: int, st: ReparseStats) -> (ReparseStats, bool)
        decreases self.toks().len() - pos, room(m), 3int, 0int,
    {
        match self.reuse {
            None => (st, false),
            Some(reuse) => match self.earlier(reuse, pos) {
                None => (st, false),
                Some(start) => self.tried(reuse, pos, start, 0, m, st),
            },
        }
    }

    /// The counts after the expression at token `pos` was parsed with
    /// precedence `m`: a subtree is taken if one can be, else an operand is
    /// parsed and the operators after it.
    #[verifier::opaque]
    pub open spec fn counted(&self, pos: int, m: int, st: ReparseStats) -> ReparseStats
        decreases self.toks().len() - pos, room(m), 4int, 0int,
    {
        let a = self.toks();
        let (st, found) = self.looked_up(pos, m, st);
        if found || !(0 <= pos < a.len()) {
            st
        } else {
            match nud_at(a, pos) {
                Out::Done(f, q) => if pos < q <= a.len() {
                    self.counted_loop(
                        pos,
                        m,
                        stamp(f, lb(a, q)),
                        no_spine(),
                        q,
                        self.counted_operand(pos, st),
                    )
                } else {
                    st
                },
                Out::Fail(_) => st,
            }
        }
    }

    /// The counts after the operand at token `pos`.
    #[verifier::opaque]
    pub open spec fn counted_operand(&self, pos: int, st: ReparseStats) -> ReparseStats
        decreases self.toks().len() - pos, 0int, 1int, 0int,
    {
        let a = self.toks();
        let k = a[pos].kind;
        let st = parsed_one(st);
        if !(0 <= pos < a.len()) || k == TokenKind::Int || k == TokenKind::Ident {
            st
        } else if k == TokenKind::LParen {
            self.counted(pos + 1, 0, st)
        } else {
            self.counted(pos + 1, prefix_rbp_of(k) as int, st)
        }
    }

    /// The counts after the operators from token `q` on.
    #[verifier::opaque]
    pub open spec fn counted_loop(
        &self,
        p: int,
        m: int,
        left: Form,
        spine: int,
        q: int,
        st: ReparseStats,
    ) -> ReparseStats
        decreases self.toks().len() - q, 0int, 3int, 0int,
    {
        let a = self.toks();
        if !(0 <= q < a.len()) || lb(a, q) <= m {
            st
        } else {
            let s = min_of(spine, lb(a, q));
            match step_at(a, p, left, s, q) {
                Out::Done(f, r) => if q < r < a.len() {
                    self.counted_loop(
                        p,
                        m,
                        stamp(f, lb(a, r)),
                        s,
                        r,
                        self.counted_step(q, st),
                    )
                } else {
                    st
                },
                Out::Fail(_) => st,
            }
        }
    }

    /// The counts after the operator at token `q` and what it takes. A chain is
    /// no node of its own.
    #[verifier::opaque]
    pub open spec fn counted_step(&self, q: int, st: ReparseStats) -> ReparseStats
        decreases self.toks().len() - q, 0int, 2int, 0int,
    {
        let a = self.toks();
        let k = a[q].kind;
        if !(0 <= q < a.len()) {
            st
        } else if k == TokenKind::LParen {
            if q + 1 < a.len() && a[q + 1].kind == TokenKind::RParen {
                parsed_one(st)
            } else {
                self.counted_list(q + 1, TokenKind::Comma, 0, parsed_one(st))
            }
        } else if k == TokenKind::LBracket {
            self.counted(q + 1, 0, parsed_one(st))
        } else if k == TokenKind::Dot {
            parsed_one(st)
        } else if k == TokenKind::Question {
            let st = self.counted(q + 1, 0, parsed_one(st));
            match parse_at(a, q + 1, 0) {
                Out::Done(_, r) => if q < r < a.len() {
                    self.counted(r + 1, rbp_of(k) as int, st)
                } else {
                    st
                },
                Out::Fail(_) => st,
            }
        } else if chain_kind(k) {
            self.counted_list(q + 1, k, rbp_of(k) as int, st)
        } else {
            self.counted(q + 1, rbp_of(k) as int, parsed_one(st))
        }
    }

    /// The counts after expressions separated by `sep` tokens.
    #[verifier::opaque]
    pub open spec fn counted_list(&self, q: int, sep: TokenKind, m: int, st: ReparseStats) -> ReparseStats
        decreases self.toks().len() - q, 101int, 0int, 0int,
    {
        let a = self.toks();
        let st = self.counted(q, m, st);
        match parse_at(a, q, m) {
            Out::Done(_, r) => if 0 <= q < r < a.len() && a[r].kind == sep {
                self.counted_list(r + 1, sep, m, st)
            } else {
                st
            },
            Out::Fail(_) => st,
        }
    }

    /// The counts after the operands of a chain from token `pos` on that start
    /// before byte `end`.
    #[verifier::opaque]
    pub open spec fn counted_middle(&self, op: TokenKind, pos: int, end: int, st: ReparseStats) -> ReparseStats
        decreases self.toks().len() - pos, room(rbp_of(op) as int), 5int, 0int,
    {
        let b = self.toks();
        if pos < 0 || pos >= b.len() || b[pos].start >= end {
            st
        } else {
            let st = self.counted(pos, rbp_of(op) as int, st);
            match parse_at(b, pos, rbp_of(op) as int) {
                Out::Done(_, z) => if pos <= z < b.len() && b[z].kind == op {
                    self.counted_middle(op, z + 1, end, st)
                } else {
                    st
                },
                Out::Fail(_) => st,
            }
        }
    }
}

impl<'a> World<'a> {
    pub proof fn lemma_accepted_whole(
        &self,
        reuse: Reuse<'a>,
        pos: int,
        cand: Arc<Node>,
        start: int,
        m: int,
        st: ReparseStats,
    )
        requires
            reuse.edit.untouched(start, start + cand.width),
        ensures
            self.accepted(reuse, pos, cand, start, m, st) == reused(
                attempted(st),
                node_count(cand@),
            ),
    {
        reveal(World::accepted);
        reveal(World::tried);
        reveal(World::looked_up);
        reveal(World::counted);
        reveal(World::counted_operand);
        reveal(World::counted_loop);
        reveal(World::counted_step);
        reveal(World::counted_list);
        reveal(World::counted_middle);
    }

    pub proof fn lemma_accepted_chain(
        &self,
        reuse: Reuse<'a>,
        pos: int,
        cand: Arc<Node>,
        start: int,
        m: int,
        st: ReparseStats,
    )
        requires
            !reuse.edit.untouched(start, start + cand.width),
            splices_chain(reuse, self.toks(), pos, cand, start),
            0 <= m < lbp_of(chain_edited(reuse, *cand, start)->0),
        ensures
            ({
                let op = chain_edited(reuse, *cand, start)->0;
                let (o, os, oe) = operand_at(
                    reuse.cache.spans->0,
                    cand,
                    start,
                    start + cand.width,
                    reuse.edit.start as int,
                    reuse.edit.end as int,
                    op,
                )->0;
                let k = starting(self.toks(), pos, os);
                pos <= k <= self.toks().len() ==> self.accepted(reuse, pos, cand, start, m, st)
                    == reused(
                    self.counted(k, rbp_of(op) as int, attempted(st)),
                    if node_count(cand@) >= node_count(o@) {
                        node_count(cand@) - node_count(o@)
                    } else {
                        0
                    },
                )
            }),
    {
        reveal(World::accepted);
        reveal(World::tried);
        reveal(World::looked_up);
        reveal(World::counted);
        reveal(World::counted_operand);
        reveal(World::counted_loop);
        reveal(World::counted_step);
        reveal(World::counted_list);
        reveal(World::counted_middle);
    }

    pub proof fn lemma_accepted_general(
        &self,
        reuse: Reuse<'a>,
        pos: int,
        cand: Arc<Node>,
        start: int,
        m: int,
        st: ReparseStats,
    )
        requires
            !reuse.edit.untouched(start, start + cand.width),
            !splices_chain(reuse, self.toks(), pos, cand, start),
            chain_edited(reuse, *cand, start) is Some,
            0 <= m < lbp_of(chain_edited(reuse, *cand, start)->0),
        ensures
            ({
                let op = chain_edited(reuse, *cand, start)->0;
                let p = entry_token(lex(reuse.old_src.spec_bytes()), start as u64, &cand);
                let (from, end) = mid_bounds(
                    reuse,
                    p,
                    pos,
                    op,
                    flat(cand@, op),
                    start + cand.width,
                );
                pos <= from <= self.toks().len() ==> self.accepted(reuse, pos, cand, start, m, st)
                    == reused(
                    self.counted_middle(op, from, end, attempted(st)),
                    kept_nodes(
                        cand,
                        start,
                        start + cand.width,
                        reuse.edit.start as int,
                        reuse.edit.end as int,
                        op,
                    ),
                )
            }),
    {
        reveal(World::accepted);
        reveal(World::tried);
        reveal(World::looked_up);
        reveal(World::counted);
        reveal(World::counted_operand);
        reveal(World::counted_loop);
        reveal(World::counted_step);
        reveal(World::counted_list);
        reveal(World::counted_middle);
    }

    pub proof fn lemma_tried(
        &self,
        reuse: Reuse<'a>,
        pos: int,
        start: int,
        i: int,
        m: int,
        st: ReparseStats,
    )
        ensures
            ({
                let cands = reuse.cache.by_byte.cands(start as u64);
                self.tried(reuse, pos, start, i, m, st) == (if i < 0 || i >= cands.len() {
                    (st, false)
                } else if self.reusable(reuse, pos, cands[i], start, m) {
                    (self.accepted(reuse, pos, cands[i], start, m, st), true)
                } else {
                    self.tried(
                        reuse,
                        pos,
                        start,
                        i + 1,
                        m,
                        self.refused(reuse, pos, cands[i], start, m, st),
                    )
                })
            }),
    {
        reveal(World::accepted);
        reveal(World::tried);
        reveal(World::looked_up);
        reveal(World::counted);
        reveal(World::counted_operand);
        reveal(World::counted_loop);
        reveal(World::counted_step);
        reveal(World::counted_list);
        reveal(World::counted_middle);
    }

    pub proof fn lemma_looked_up(&self, pos: int, m: int, st: ReparseStats)
        ensures
            self.looked_up(pos, m, st) == (match self.reuse {
                None => (st, false),
                Some(reuse) => match self.earlier(reuse, pos) {
                    None => (st, false),
                    Some(start) => self.tried(reuse, pos, start, 0, m, st),
                },
            }),
    {
        reveal(World::accepted);
        reveal(World::tried);
        reveal(World::looked_up);
        reveal(World::counted);
        reveal(World::counted_operand);
        reveal(World::counted_loop);
        reveal(World::counted_step);
        reveal(World::counted_list);
        reveal(World::counted_middle);
    }

    pub proof fn lemma_counted(&self, pos: int, m: int, st: ReparseStats)
        ensures
            self.looked_up(pos, m, st).1 ==> self.counted(pos, m, st) == self.looked_up(
                pos,
                m,
                st,
            ).0,
            !self.looked_up(pos, m, st).1 && 0 <= pos < self.toks().len() ==> (nud_at(
                self.toks(),
                pos,
            ) matches Out::Done(f, q) ==> pos < q < self.toks().len() ==> self.counted(pos, m, st)
                == self.counted_loop(
                pos,
                m,
                stamp(f, lb(self.toks(), q)),
                no_spine(),
                q,
                self.counted_operand(pos, self.looked_up(pos, m, st).0),
            )),
    {
        reveal(World::accepted);
        reveal(World::tried);
        reveal(World::looked_up);
        reveal(World::counted);
        reveal(World::counted_operand);
        reveal(World::counted_loop);
        reveal(World::counted_step);
        reveal(World::counted_list);
        reveal(World::counted_middle);
    }

    pub proof fn lemma_counted_operand(&self, pos: int, st: ReparseStats)
        requires
            0 <= pos < self.toks().len(),
        ensures
            ({
                let k = self.toks()[pos].kind;
                self.counted_operand(pos, st) == (if k == TokenKind::Int || k == TokenKind::Ident {
                    parsed_one(st)
                } else if k == TokenKind::LParen {
                    self.counted(pos + 1, 0, parsed_one(st))
                } else {
                    self.counted(pos + 1, prefix_rbp_of(k) as int, parsed_one(st))
                })
            }),
    {
        reveal(World::accepted);
        reveal(World::tried);
        reveal(World::looked_up);
        reveal(World::counted);
        reveal(World::counted_operand);
        reveal(World::counted_loop);
        reveal(World::counted_step);
        reveal(World::counted_list);
        reveal(World::counted_middle);
    }

    pub proof fn lemma_counted_loop(
        &self,
        p: int,
        m: int,
        left: Form,
        spine: int,
        q: int,
        st: ReparseStats,
    )
        requires
            0 <= q < self.toks().len(),
        ensures
            lb(self.toks(), q) <= m ==> self.counted_loop(p, m, left, spine, q, st) == st,
            lb(self.toks(), q) > m ==> {
                let a = self.toks();
                let s = min_of(spine, lb(a, q));
                step_at(a, p, left, s, q) matches Out::Done(f, r) ==> q < r < a.len()
                    ==> self.counted_loop(p, m, left, spine, q, st) == self.counted_loop(
                    p,
                    m,
                    stamp(f, lb(a, r)),
                    s,
                    r,
                    self.counted_step(q, st),
                )
            },
    {
        reveal(World::accepted);
        reveal(World::tried);
        reveal(World::looked_up);
        reveal(World::counted);
        reveal(World::counted_operand);
        reveal(World::counted_loop);
        reveal(World::counted_step);
        reveal(World::counted_list);
        reveal(World::counted_middle);
    }

    pub proof fn lemma_counted_step(&self, q: int, st: ReparseStats)
        requires
            0 <= q < self.toks().len(),
        ensures
            ({
                let a = self.toks();
                let k = a[q].kind;
                let c = self.counted_step(q, st);
                if k == TokenKind::LParen {
                    if q + 1 < a.len() && a[q + 1].kind == TokenKind::RParen {
                        c == parsed_one(st)
                    } else {
                        c == self.counted_list(q + 1, TokenKind::Comma, 0, parsed_one(st))
                    }
                } else if k == TokenKind::LBracket {
                    c == self.counted(q + 1, 0, parsed_one(st))
                } else if k == TokenKind::Dot {
                    c == parsed_one(st)
                } else if k == TokenKind::Question {
                    parse_at(a, q + 1, 0) matches Out::Done(_, r) ==> q < r < a.len() ==> c
                        == self.counted(
                        r + 1,
                        rbp_of(k) as int,
                        self.counted(q + 1, 0, parsed_one(st)),
                    )
                } else if chain_kind(k) {
                    c == self.counted_list(q + 1, k, rbp_of(k) as int, st)
                } else {
                    c == self.counted(q + 1, rbp_of(k) as int, parsed_one(st))
                }
            }),
    {
        reveal(World::accepted);
        reveal(World::tried);
        reveal(World::looked_up);
        reveal(World::counted);
        reveal(World::counted_operand);
        reveal(World::counted_loop);
        reveal(World::counted_step);
        reveal(World::counted_list);
        reveal(World::counted_middle);
    }

    pub proof fn lemma_counted_list(&self, q: int, sep: TokenKind, m: int, st: ReparseStats)
        ensures
            ({
                let a = self.toks();
                let c = self.counted(q, m, st);
                parse_at(a, q, m) matches Out::Done(_, r) ==> 0 <= q < r < a.len()
                    ==> self.counted_list(q, sep, m, st) == (if a[r].kind == sep {
                    self.counted_list(r + 1, sep, m, c)
                } else {
                    c
                })
            }),
    {
        reveal(World::accepted);
        reveal(World::tried);
        reveal(World::looked_up);
        reveal(World::counted);
        reveal(World::counted_operand);
        reveal(World::counted_loop);
        reveal(World::counted_step);
        reveal(World::counted_list);
        reveal(World::counted_middle);
    }

    pub proof fn lemma_counted_middle(&self, op: TokenKind, pos: int, end: int, st: ReparseStats)
        requires
            0 <= pos < self.toks().len(),
        ensures
            ({
                let b = self.toks();
                let c = self.counted(pos, rbp_of(op) as int, st);
                if b[pos].start >= end {
                    self.counted_middle(op, pos, end, st) == st
                } else {
                    parse_at(b, pos, rbp_of(op) as int) matches Out::Done(_, z) ==> pos <= z
                        < b.len() ==> self.counted_middle(op, pos, end, st) == (if b[z].kind == op {
                        self.counted_middle(op, z + 1, end, c)
                    } else {
                        c
                    })
                }
            }),
    {
        reveal(World::accepted);
        reveal(World::tried);
        reveal(World::looked_up);
        reveal(World::counted);
        reveal(World::counted_operand);
        reveal(World::counted_loop);
        reveal(World::counted_step);
        reveal(World::counted_list);
        reveal(World::counted_middle);
    }
}

/// The token from `pos` on that starts at byte `start`.
pub open spec fn starting(b: Seq<Tok>, pos: int, start: int) -> int {
    choose|k: int| pos <= k < b.len() && #[trigger] starts_at(b, k, start)
}

pub open spec fn starts_at(b: Seq<Tok>, k: int, start: int) -> bool {
    b[k].start == start
}

/// Number of nodes of the largest subtrees of a chain at `[s, e)` on one side
/// of the edit.
pub open spec fn side_nodes(
    node: Arc<Node>,
    s: int,
    e: int,
    e_lo: int,
    e_hi: int,
    op: TokenKind,
    before: bool,
) -> int
    decreases node,
{
    if e < e_lo {
        if before {
            node_count(node@)
        } else {
            0
        }
    } else if s > e_hi {
        if before {
            0
        } else {
            node_count(node@)
        }
    } else {
        match node.kind {
            NodeKind::Binary { op: o, left, right } => if o == op {
                side_nodes(left, s, s + left.width, e_lo, e_hi, op, before) + side_nodes(
                    right,
                    e - right.width,
                    e,
                    e_lo,
                    e_hi,
                    op,
                    before,
                )
            } else {
                0
            },
            _ => 0,
        }
    }
}

/// The largest subtrees of a chain at `[s, e)` on one side of the edit, in
/// order.
pub open spec fn side_units(
    node: Arc<Node>,
    s: int,
    e: int,
    e_lo: int,
    e_hi: int,
    op: TokenKind,
    before: bool,
) -> Seq<Arc<Node>>
    decreases node,
{
    if e < e_lo {
        if before {
            seq![node]
        } else {
            Seq::empty()
        }
    } else if s > e_hi {
        if before {
            Seq::empty()
        } else {
            seq![node]
        }
    } else {
        match node.kind {
            NodeKind::Binary { op: o, left, right } => if o == op {
                side_units(left, s, s + left.width, e_lo, e_hi, op, before) + side_units(
                    right,
                    e - right.width,
                    e,
                    e_lo,
                    e_hi,
                    op,
                    before,
                )
            } else {
                Seq::empty()
            },
            _ => Seq::empty(),
        }
    }
}

/// Number of nodes kept of a chain at `[s, e)`.
pub open spec fn kept_nodes(
    node: Arc<Node>,
    s: int,
    e: int,
    e_lo: int,
    e_hi: int,
    op: TokenKind,
) -> int {
    side_nodes(node, s, e, e_lo, e_hi, op, true) + side_nodes(node, s, e, e_lo, e_hi, op, false)
}

} // verus!
