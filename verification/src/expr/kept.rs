//! What a reparse keeps: the cached subtrees that stand, as they are, in the
//! new tree.

use std::sync::Arc;
use vstd::prelude::*;
use vstd::string::*;

use crate::expr::ast::Node;
use crate::expr::grammar::{lb, min_of, no_spine, nud_at, parse_at, stamp, step_at, Form, Out};
use crate::expr::lexer::{lex, TokenKind};
use crate::expr::op::{chain_kind, lbp_of, prefix_rbp_of, rbp_of};
use crate::expr::reuse::Reuse;
use crate::expr::shape::flat;
use crate::expr::splice::{chain_edited, index_at, operand_at, splices_chain};
use crate::expr::splice_general::{mid_bounds, middle, rejoined};
use crate::expr::subtrees::{beside, held, operands_in};
use crate::expr::walk::{entry_token, room, side_units, starting, World};

verus! {

impl<'a> World<'a> {
    /// Subtree `i` of those cached at byte `start` is the first that can be
    /// reused.
    pub open spec fn comes_first(
        &self,
        reuse: Reuse<'a>,
        pos: int,
        start: int,
        i: int,
        m: int,
    ) -> bool {
        let cands = reuse.cache.by_byte.cands(start as u64);
        &&& 0 <= i < cands.len()
        &&& self.reusable(reuse, pos, cands[i], start, m)
        &&& forall|k: int|
            0 <= k < i ==> !self.reusable(reuse, pos, #[trigger] cands[k], start, m)
    }

    /// The number of that subtree.
    pub open spec fn first_of(&self, reuse: Reuse<'a>, pos: int, start: int, m: int) -> int {
        choose|i: int| #[trigger] self.comes_first(reuse, pos, start, i, m)
    }

    /// The cached subtree that is taken at token `pos`, with the byte it once
    /// stood at.
    pub open spec fn chosen(&self, pos: int, m: int) -> Option<(Arc<Node>, int)> {
        match self.reuse {
            None => None,
            Some(reuse) => match self.earlier(reuse, pos) {
                None => None,
                Some(start) => if exists|i: int| #[trigger]
                    self.comes_first(reuse, pos, start, i, m) {
                    let i = self.first_of(reuse, pos, start, m);
                    Some((reuse.cache.by_byte.cands(start as u64)[i], start))
                } else {
                    None
                },
            },
        }
    }

    /// What is kept of a subtree that was taken: all of it, or for a spliced
    /// chain what stands beside the operand parsed again, or all operands outside
    /// the edit and the largest parts of its units that are left; and what is kept
    /// of the operands parsed again.
    #[verifier::opaque]
    pub open spec fn kept_of(
        &self,
        reuse: Reuse<'a>,
        pos: int,
        cand: Arc<Node>,
        start: int,
        m: int,
    ) -> Set<Node>
        decreases self.toks().len() - pos, room(m), 1int,
    {
        let b = self.toks();
        let (lo, hi) = (reuse.edit.start as int, reuse.edit.end as int);
        let end = start + cand.width;
        if reuse.edit.untouched(start, end) {
            Set::empty().insert(*cand)
        } else {
            match chain_edited(reuse, *cand, start) {
                None => Set::empty(),
                Some(op) => if room(rbp_of(op) as int) >= room(m) {
                    Set::empty()
                } else if splices_chain(reuse, b, pos, cand, start) {
                    let (o, os, oe) = operand_at(
                        reuse.cache.spans->0,
                        cand,
                        start,
                        end,
                        lo,
                        hi,
                        op,
                    )->0;
                    let k = starting(b, pos, os);
                    beside(cand, op, index_at(cand, start, end, lo, hi, op)).union(
                        if pos <= k <= b.len() {
                            self.kept(k, rbp_of(op) as int)
                        } else {
                            Set::empty()
                        },
                    )
                } else {
                    let p = entry_token(lex(reuse.old_src.spec_bytes()), start as u64, &cand);
                    let (from, stop) = mid_bounds(reuse, p, pos, op, flat(cand@, op), end);
                    let between = match middle(b, op, from, stop) {
                        Some((mid, _, _)) => mid.len() as int,
                        None => 0,
                    };
                    let ls = side_units(cand, start, end, lo, hi, op, true);
                    let rs = side_units(cand, start, end, lo, hi, op, false);
                    operands_in(ls + rs, op).union(held(rejoined(ls, between, rs, op))).union(
                        if pos <= from <= b.len() {
                            self.kept_middle(op, from, stop)
                        } else {
                            Set::empty()
                        },
                    )
                },
            }
        }
    }

    /// What is kept in the expression at token `pos`, parsed with precedence
    /// `m`.
    #[verifier::opaque]
    pub open spec fn kept(&self, pos: int, m: int) -> Set<Node>
        decreases self.toks().len() - pos, room(m), 4int,
    {
        let a = self.toks();
        match self.chosen(pos, m) {
            Some((cand, start)) => self.kept_of(self.reuse->0, pos, cand, start, m),
            None => if !(0 <= pos < a.len()) {
                Set::empty()
            } else {
                match nud_at(a, pos) {
                    Out::Done(f, q) => if pos < q <= a.len() {
                        self.kept_operand(pos).union(
                            self.kept_loop(pos, m, stamp(f, lb(a, q)), no_spine(), q),
                        )
                    } else {
                        Set::empty()
                    },
                    Out::Fail(_) => Set::empty(),
                }
            },
        }
    }

    /// What is kept in the operand at token `pos`.
    #[verifier::opaque]
    pub open spec fn kept_operand(&self, pos: int) -> Set<Node>
        decreases self.toks().len() - pos, 0int, 1int,
    {
        let a = self.toks();
        let k = a[pos].kind;
        if !(0 <= pos < a.len()) || k == TokenKind::Int || k == TokenKind::Ident {
            Set::empty()
        } else if k == TokenKind::LParen {
            self.kept(pos + 1, 0)
        } else {
            self.kept(pos + 1, prefix_rbp_of(k) as int)
        }
    }

    /// What is kept in what the operators from token `q` on take.
    #[verifier::opaque]
    pub open spec fn kept_loop(&self, p: int, m: int, left: Form, spine: int, q: int) -> Set<Node>
        decreases self.toks().len() - q, 0int, 3int,
    {
        let a = self.toks();
        if !(0 <= q < a.len()) || lb(a, q) <= m {
            Set::empty()
        } else {
            let s = min_of(spine, lb(a, q));
            match step_at(a, p, left, s, q) {
                Out::Done(f, r) => if q < r < a.len() {
                    self.kept_step(q).union(self.kept_loop(p, m, stamp(f, lb(a, r)), s, r))
                } else {
                    Set::empty()
                },
                Out::Fail(_) => Set::empty(),
            }
        }
    }

    /// What is kept in what the operator at token `q` takes.
    #[verifier::opaque]
    pub open spec fn kept_step(&self, q: int) -> Set<Node>
        decreases self.toks().len() - q, 0int, 2int,
    {
        let a = self.toks();
        let k = a[q].kind;
        if !(0 <= q < a.len()) || k == TokenKind::Dot {
            Set::empty()
        } else if k == TokenKind::LParen {
            if q + 1 < a.len() && a[q + 1].kind == TokenKind::RParen {
                Set::empty()
            } else {
                self.kept_list(q + 1, TokenKind::Comma, 0)
            }
        } else if k == TokenKind::LBracket {
            self.kept(q + 1, 0)
        } else if k == TokenKind::Question {
            self.kept(q + 1, 0).union(
                match parse_at(a, q + 1, 0) {
                    Out::Done(_, r) => if q < r < a.len() {
                        self.kept(r + 1, rbp_of(k) as int)
                    } else {
                        Set::empty()
                    },
                    Out::Fail(_) => Set::empty(),
                },
            )
        } else if chain_kind(k) {
            self.kept_list(q + 1, k, rbp_of(k) as int)
        } else {
            self.kept(q + 1, rbp_of(k) as int)
        }
    }

    /// What is kept in expressions separated by `sep` tokens.
    #[verifier::opaque]
    pub open spec fn kept_list(&self, q: int, sep: TokenKind, m: int) -> Set<Node>
        decreases self.toks().len() - q, 101int, 0int,
    {
        let a = self.toks();
        self.kept(q, m).union(
            match parse_at(a, q, m) {
                Out::Done(_, r) => if 0 <= q < r < a.len() && a[r].kind == sep {
                    self.kept_list(r + 1, sep, m)
                } else {
                    Set::empty()
                },
                Out::Fail(_) => Set::empty(),
            },
        )
    }

    /// What is kept in the operands of a chain from token `pos` on that start
    /// before byte `end`.
    #[verifier::opaque]
    pub open spec fn kept_middle(&self, op: TokenKind, pos: int, end: int) -> Set<Node>
        decreases self.toks().len() - pos, room(rbp_of(op) as int), 5int,
    {
        let b = self.toks();
        if pos < 0 || pos >= b.len() || b[pos].start >= end {
            Set::empty()
        } else {
            self.kept(pos, rbp_of(op) as int).union(
                match parse_at(b, pos, rbp_of(op) as int) {
                    Out::Done(_, z) => if pos <= z < b.len() && b[z].kind == op {
                        self.kept_middle(op, z + 1, end)
                    } else {
                        Set::empty()
                    },
                    Out::Fail(_) => Set::empty(),
                },
            )
        }
    }
}

impl<'a> World<'a> {
    proof fn lemma_first(&self, reuse: Reuse<'a>, pos: int, start: int, i: int, m: int)
        requires
            self.reuse == Some(reuse),
            self.earlier(reuse, pos) == Some(start),
            self.comes_first(reuse, pos, start, i, m),
        ensures
            self.chosen(pos, m) == Some((reuse.cache.by_byte.cands(start as u64)[i], start)),
    {
        let cands = reuse.cache.by_byte.cands(start as u64);
        let j = self.first_of(reuse, pos, start, m);
        assert(self.comes_first(reuse, pos, start, j, m));
        if j < i {
            assert(!self.reusable(reuse, pos, cands[j], start, m));
        }
        if i < j {
            assert(!self.reusable(reuse, pos, cands[i], start, m));
        }
        assert(j == i);
        assert(self.chosen(pos, m) is Some);
        let got = self.chosen(pos, m)->0;
        assert(got.1 == start);
        assert(got.0 == cands[i]);
    }

    /// The first subtree that can be reused is the one that is taken.
    pub proof fn lemma_chosen(&self, reuse: Reuse<'a>, pos: int, start: int, i: int, m: int)
        requires
            self.reuse == Some(reuse),
            self.earlier(reuse, pos) == Some(start),
            self.comes_first(reuse, pos, start, i, m),
        ensures
            self.kept(pos, m) == self.kept_of(
                reuse,
                pos,
                reuse.cache.by_byte.cands(start as u64)[i],
                start,
                m,
            ),
    {
        self.lemma_first(reuse, pos, start, i, m);
        reveal(World::kept_of);
        reveal(World::kept);
        reveal(World::kept_operand);
        reveal(World::kept_loop);
        reveal(World::kept_step);
        reveal(World::kept_list);
        reveal(World::kept_middle);
    }

    pub proof fn lemma_kept_whole(
        &self,
        reuse: Reuse<'a>,
        pos: int,
        cand: Arc<Node>,
        start: int,
        m: int,
    )
        requires
            reuse.edit.untouched(start, start + cand.width),
        ensures
            self.kept_of(reuse, pos, cand, start, m) == Set::<Node>::empty().insert(*cand),
    {
        reveal(World::kept_of);
        reveal(World::kept);
        reveal(World::kept_operand);
        reveal(World::kept_loop);
        reveal(World::kept_step);
        reveal(World::kept_list);
        reveal(World::kept_middle);
    }

    pub proof fn lemma_kept_chain(
        &self,
        reuse: Reuse<'a>,
        pos: int,
        cand: Arc<Node>,
        start: int,
        m: int,
    )
        requires
            !reuse.edit.untouched(start, start + cand.width),
            splices_chain(reuse, self.toks(), pos, cand, start),
            0 <= m < lbp_of(chain_edited(reuse, *cand, start)->0),
        ensures
            ({
                let op = chain_edited(reuse, *cand, start)->0;
                let (lo, hi) = (reuse.edit.start as int, reuse.edit.end as int);
                let end = start + cand.width;
                let (o, os, oe) = operand_at(
                    reuse.cache.spans->0,
                    cand,
                    start,
                    end,
                    lo,
                    hi,
                    op,
                )->0;
                let k = starting(self.toks(), pos, os);
                pos <= k <= self.toks().len() ==> self.kept_of(reuse, pos, cand, start, m)
                    == beside(cand, op, index_at(cand, start, end, lo, hi, op)).union(
                    self.kept(k, rbp_of(op) as int),
                )
            }),
    {
        reveal(World::kept_of);
        reveal(World::kept);
        reveal(World::kept_operand);
        reveal(World::kept_loop);
        reveal(World::kept_step);
        reveal(World::kept_list);
        reveal(World::kept_middle);
    }

    pub proof fn lemma_kept_general(
        &self,
        reuse: Reuse<'a>,
        pos: int,
        cand: Arc<Node>,
        start: int,
        m: int,
    )
        requires
            !reuse.edit.untouched(start, start + cand.width),
            !splices_chain(reuse, self.toks(), pos, cand, start),
            chain_edited(reuse, *cand, start) is Some,
            0 <= m < lbp_of(chain_edited(reuse, *cand, start)->0),
        ensures
            ({
                let op = chain_edited(reuse, *cand, start)->0;
                let b = self.toks();
                let (lo, hi) = (reuse.edit.start as int, reuse.edit.end as int);
                let end = start + cand.width;
                let p = entry_token(lex(reuse.old_src.spec_bytes()), start as u64, &cand);
                let (from, stop) = mid_bounds(reuse, p, pos, op, flat(cand@, op), end);
                let ls = side_units(cand, start, end, lo, hi, op, true);
                let rs = side_units(cand, start, end, lo, hi, op, false);
                middle(b, op, from, stop) matches Some((mid, _, _)) ==> pos <= from <= b.len()
                    ==> self.kept_of(reuse, pos, cand, start, m) == operands_in(ls + rs, op).union(
                    held(rejoined(ls, mid.len() as int, rs, op)),
                ).union(self.kept_middle(op, from, stop))
            }),
    {
        reveal(World::kept_of);
        reveal(World::kept);
        reveal(World::kept_operand);
        reveal(World::kept_loop);
        reveal(World::kept_step);
        reveal(World::kept_list);
        reveal(World::kept_middle);
    }

    pub proof fn lemma_kept(&self, pos: int, m: int)
        requires
            self.chosen(pos, m) is None,
            0 <= pos < self.toks().len(),
        ensures
            nud_at(self.toks(), pos) matches Out::Done(f, q) ==> pos < q < self.toks().len()
                ==> self.kept(pos, m) == self.kept_operand(pos).union(
                self.kept_loop(pos, m, stamp(f, lb(self.toks(), q)), no_spine(), q),
            ),
    {
        reveal(World::kept_of);
        reveal(World::kept);
        reveal(World::kept_operand);
        reveal(World::kept_loop);
        reveal(World::kept_step);
        reveal(World::kept_list);
        reveal(World::kept_middle);
    }

    pub proof fn lemma_kept_operand(&self, pos: int)
        requires
            0 <= pos < self.toks().len(),
        ensures
            ({
                let k = self.toks()[pos].kind;
                self.kept_operand(pos) == (if k == TokenKind::Int || k == TokenKind::Ident {
                    Set::<Node>::empty()
                } else if k == TokenKind::LParen {
                    self.kept(pos + 1, 0)
                } else {
                    self.kept(pos + 1, prefix_rbp_of(k) as int)
                })
            }),
    {
        reveal(World::kept_of);
        reveal(World::kept);
        reveal(World::kept_operand);
        reveal(World::kept_loop);
        reveal(World::kept_step);
        reveal(World::kept_list);
        reveal(World::kept_middle);
    }

    pub proof fn lemma_kept_loop(&self, p: int, m: int, left: Form, spine: int, q: int)
        requires
            0 <= q < self.toks().len(),
        ensures
            lb(self.toks(), q) <= m ==> self.kept_loop(p, m, left, spine, q)
                == Set::<Node>::empty(),
            lb(self.toks(), q) > m ==> {
                let a = self.toks();
                let s = min_of(spine, lb(a, q));
                step_at(a, p, left, s, q) matches Out::Done(f, r) ==> q < r < a.len()
                    ==> self.kept_loop(p, m, left, spine, q) == self.kept_step(q).union(
                    self.kept_loop(p, m, stamp(f, lb(a, r)), s, r),
                )
            },
    {
        reveal(World::kept_of);
        reveal(World::kept);
        reveal(World::kept_operand);
        reveal(World::kept_loop);
        reveal(World::kept_step);
        reveal(World::kept_list);
        reveal(World::kept_middle);
    }

    pub proof fn lemma_kept_step(&self, q: int)
        requires
            0 <= q < self.toks().len(),
        ensures
            ({
                let a = self.toks();
                let k = a[q].kind;
                let c = self.kept_step(q);
                if k == TokenKind::LParen {
                    if q + 1 < a.len() && a[q + 1].kind == TokenKind::RParen {
                        c == Set::<Node>::empty()
                    } else {
                        c == self.kept_list(q + 1, TokenKind::Comma, 0)
                    }
                } else if k == TokenKind::LBracket {
                    c == self.kept(q + 1, 0)
                } else if k == TokenKind::Dot {
                    c == Set::<Node>::empty()
                } else if k == TokenKind::Question {
                    parse_at(a, q + 1, 0) matches Out::Done(_, r) ==> q < r < a.len() ==> c
                        == self.kept(q + 1, 0).union(self.kept(r + 1, rbp_of(k) as int))
                } else if chain_kind(k) {
                    c == self.kept_list(q + 1, k, rbp_of(k) as int)
                } else {
                    c == self.kept(q + 1, rbp_of(k) as int)
                }
            }),
    {
        reveal(World::kept_of);
        reveal(World::kept);
        reveal(World::kept_operand);
        reveal(World::kept_loop);
        reveal(World::kept_step);
        reveal(World::kept_list);
        reveal(World::kept_middle);
    }

    pub proof fn lemma_kept_list(&self, q: int, sep: TokenKind, m: int)
        ensures
            ({
                let a = self.toks();
                parse_at(a, q, m) matches Out::Done(_, r) ==> 0 <= q < r < a.len()
                    ==> self.kept_list(q, sep, m) == self.kept(q, m).union(
                    if a[r].kind == sep {
                        self.kept_list(r + 1, sep, m)
                    } else {
                        Set::empty()
                    },
                )
            }),
    {
        reveal(World::kept_of);
        reveal(World::kept);
        reveal(World::kept_operand);
        reveal(World::kept_loop);
        reveal(World::kept_step);
        reveal(World::kept_list);
        reveal(World::kept_middle);
    }

    pub proof fn lemma_kept_middle(&self, op: TokenKind, pos: int, end: int)
        requires
            0 <= pos < self.toks().len(),
        ensures
            ({
                let b = self.toks();
                if b[pos].start >= end {
                    self.kept_middle(op, pos, end) == Set::<Node>::empty()
                } else {
                    parse_at(b, pos, rbp_of(op) as int) matches Out::Done(_, z) ==> pos <= z
                        < b.len() ==> self.kept_middle(op, pos, end) == self.kept(
                        pos,
                        rbp_of(op) as int,
                    ).union(
                        if b[z].kind == op {
                            self.kept_middle(op, z + 1, end)
                        } else {
                            Set::empty()
                        },
                    )
                }
            }),
    {
        reveal(World::kept_of);
        reveal(World::kept);
        reveal(World::kept_operand);
        reveal(World::kept_loop);
        reveal(World::kept_step);
        reveal(World::kept_list);
        reveal(World::kept_middle);
    }
}

} // verus!
