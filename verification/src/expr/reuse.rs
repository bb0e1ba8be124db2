//! The reuse predicate: when a subtree of the earlier tree may stand for the
//! expression at the current token.

use std::sync::Arc;
use vstd::prelude::*;
use vstd::string::*;
use vstd::utf8::*;

use crate::expr::ast::{node_count, Node};
use crate::expr::cache::{entry_at, entry_ok, ReuseCache};
use crate::expr::edit::{bytes_of, Edit};
use crate::expr::grammar::{lb, no_spine, parse_at, toks_ok, Out};
use crate::expr::lexer::{lemma_lex_from, lex, models, Tok, Token};
use crate::expr::locality::{agree, lemma_local_parse, same_tok};
use crate::expr::naming::{from_cache, lemma_cached, lemma_cand_cached, lemma_range, minted};
use crate::expr::op::lbp;
use crate::expr::placement::lemma_parse;
use crate::expr::pratt_core::{lemma_lex_toks, lemma_toks_len, Parser};
use crate::expr::relocate::{lemma_tokens_recur, same_bytes};
use crate::expr::shape::{band_ok, bands_ok, fits, grouped, lemma_count_bound, lemma_fits_move, levelled, norm, sn};
use crate::expr::splice_general::put_together;
use crate::expr::subtrees::{lemma_root, subtrees};
use crate::expr::walk::{attempted, entry_token, room};

verus! {

/// What an incremental parse reuses: an earlier tree's cache, the source it
/// was parsed from and the edit since.
#[derive(Clone, Copy)]
pub struct Reuse<'a> {
    pub old_src: &'a str,
    pub edit: &'a Edit,
    pub cache: &'a ReuseCache,
    /// `Some(n)`: accept only the band `stop_lbp <= m <= m_floor`, and only if
    /// the next `n` token kinds are those of the old source; for no token, if
    /// what follows binds as before.
    pub lookahead: Option<usize>,
    pub old_tokens: &'a [Token],
}

impl<'a> Reuse<'a> {
    /// The reuse data belongs to a source `s`: the old source edited.
    pub open spec fn ok(&self, s: Seq<u8>) -> bool {
        let old = self.old_src.spec_bytes();
        &&& self.edit.in_range(old)
        &&& self.edit.small(old)
        &&& s == self.edit.applied(old)
        &&& self.cache.ok(old)
        &&& self.lookahead is Some ==> models(self.old_tokens@, old) == lex(old)
    }

    /// Where a byte of the new source stood in the old one; `None` for a byte
    /// of the replacement.
    pub fn new_byte_to_old(&self, new_byte: u32) -> (r: Option<u32>)
        requires
            self.edit.in_range(self.old_src.spec_bytes()),
            self.edit.small(self.old_src.spec_bytes()),
            new_byte <= self.old_src.spec_bytes().len() + self.edit.delta(),
        ensures
            match r {
                Some(b) => b <= self.old_src.spec_bytes().len() && self.edit.moved(b as int)
                    == Some(new_byte as int),
                None => self.edit.start <= new_byte < self.edit.start + bytes_of(
                    self.edit.replacement,
                ).len(),
            },
    {
        let n: u32 = self.edit.replacement.as_str().len() as u32;
        if new_byte < self.edit.start {
            Some(new_byte)
        } else if new_byte >= self.edit.start + n {
            Some(new_byte - self.edit.start - n + self.edit.end)
        } else {
            None
        }
    }
}

/// The bytes before and after `[os, oe)` in `old` are those before and after
/// `[ns, ne)` in `new`, or both ranges touch the start or the end.
pub open spec fn same_boundary(
    old: Seq<u8>,
    new: Seq<u8>,
    os: int,
    oe: int,
    ns: int,
    ne: int,
) -> bool {
    &&& os == 0 <==> ns == 0
    &&& os > 0 && ns > 0 ==> old[os - 1] == new[ns - 1]
    &&& oe == old.len() <==> ne == new.len()
    &&& oe < old.len() && ne < new.len() ==> old[oe] == new[ne]
}

/// `q` is the first token that starts at or after `byte`.
pub open spec fn first_is(ts: Seq<Token>, byte: u32, q: int) -> bool {
    &&& 0 <= q < ts.len()
    &&& ts[q].start >= byte
    &&& forall|k: int| 0 <= k < q ==> (#[trigger] ts[k]).start < byte
}

/// The `n` tokens from `q` on and the `n` tokens from `p` on are of the same
/// kinds; where one stream ends within them, so does the other.
pub open spec fn kinds_agree(old: Seq<Token>, q: int, new: Seq<Token>, p: int, n: int) -> bool
    decreases n,
{
    if n <= 0 {
        true
    } else if q >= old.len() || p >= new.len() {
        q >= old.len() && p >= new.len()
    } else {
        old[q].kind == new[p].kind && kinds_agree(old, q + 1, new, p + 1, n - 1)
    }
}

/// Index of the first token of `tokens` from `from` on that starts at or after
/// `byte`.
fn first_at(tokens: &[Token], from: usize, byte: u32) -> (r: Option<usize>)
    requires
        from <= tokens@.len(),
    ensures
        match r {
            Some(i) => {
                &&& from <= i < tokens@.len()
                &&& tokens@[i as int].start >= byte
                &&& forall|k: int| from <= k < i ==> (#[trigger] tokens@[k]).start < byte
            },
            None => forall|k: int|
                from <= k < tokens@.len() ==> (#[trigger] tokens@[k]).start < byte,
        },
{
    let mut i: usize = from;
    while i < tokens.len()
        invariant
            from <= i <= tokens@.len(),
            forall|k: int| from <= k < i ==> (#[trigger] tokens@[k]).start < byte,
        decreases tokens@.len() - i,
    {
        if tokens[i].start >= byte {
            return Some(i);
        }
        i = i + 1;
    }
    None
}

impl<'a> Parser<'a> {
    fn boundary_bytes_match(
        &self,
        old_src: &str,
        old_start: u32,
        old_end: u32,
        new_start: u32,
        new_end: u32,
    ) -> (r: bool)
        requires
            old_start <= old_end <= old_src.spec_bytes().len(),
            new_start <= new_end <= self.src.spec_bytes().len(),
        ensures
            r == same_boundary(
                old_src.spec_bytes(),
                self.src.spec_bytes(),
                old_start as int,
                old_end as int,
                new_start as int,
                new_end as int,
            ),
    {
        let old = old_src.as_bytes();
        let new = self.src.as_bytes();
        let left_ok = if old_start == 0 || new_start == 0 {
            old_start == 0 && new_start == 0
        } else {
            old[old_start as usize - 1] == new[new_start as usize - 1]
        };
        let old_done = old_end as usize == old.len();
        let new_done = new_end as usize == new.len();
        let right_ok = if old_done || new_done {
            old_done && new_done
        } else {
            old[old_end as usize] == new[new_end as usize]
        };
        left_ok && right_ok
    }

    /// Index of the first token from the current one on that starts at or
    /// after `byte`.
    pub(crate) fn find_token_index(&self, byte: u32) -> (r: Option<usize>)
        requires
            self.inv(),
        ensures
            match r {
                Some(i) => {
                    &&& self.pos <= i < self.tokens@.len()
                    &&& self.toks()[i as int].start >= byte
                    &&& forall|k: int|
                        self.pos <= k < i ==> (#[trigger] self.toks()[k]).start < byte
                },
                None => forall|k: int|
                    self.pos <= k < self.tokens@.len() ==> (#[trigger] self.toks()[k]).start < byte,
            },
    {
        let r = first_at(self.tokens, self.pos, byte);
        proof {
            let a = self.toks();
            assert forall|k: int| 0 <= k < a.len() implies (#[trigger] a[k]).start
                == self.tokens@[k].start by {}
        }
        r
    }

    /// Whether the `n` token kinds from `new_pos` on are those that follow
    /// byte `old_end` in the old source.
    fn lookahead_matches(
        &self,
        old_tokens: &[Token],
        n: usize,
        old_end: u32,
        new_pos: usize,
    ) -> (r: bool)
        requires
            new_pos < self.tokens@.len(),
        ensures
            r ==> exists|q: int|
                {
                    &&& first_is(old_tokens@, old_end, q)
                    &&& kinds_agree(old_tokens@, q, self.tokens@, new_pos as int, n as int)
                },
            !r ==> forall|q: int|
                first_is(old_tokens@, old_end, q) ==> !kinds_agree(
                    old_tokens@,
                    q,
                    self.tokens@,
                    new_pos as int,
                    n as int,
                ),
    {
        let old_pos: usize = match first_at(old_tokens, 0, old_end) {
            Some(i) => i,
            None => {
                return false;
            },
        };
        assert(first_is(old_tokens@, old_end, old_pos as int));
        assert forall|q: int| first_is(old_tokens@, old_end, q) implies q == old_pos by {
            assert(old_tokens@[q].start >= old_end);
            assert(old_tokens@[old_pos as int].start >= old_end);
        }
        let mut k: usize = 0;
        while k < n
            invariant
                k <= n,
                old_pos + k <= old_tokens@.len(),
                new_pos + k <= self.tokens@.len(),
                kinds_agree(old_tokens@, old_pos as int, self.tokens@, new_pos as int, n as int)
                    == kinds_agree(
                    old_tokens@,
                    old_pos + k,
                    self.tokens@,
                    new_pos + k,
                    n - k,
                ),
                first_is(old_tokens@, old_end, old_pos as int),
                forall|q: int| first_is(old_tokens@, old_end, q) ==> q == old_pos,
            decreases n - k,
        {
            let old_len: usize = old_tokens.len();
            let new_len: usize = self.tokens.len();
            let oi: usize = old_pos + k;
            let ni: usize = new_pos + k;
            if oi >= old_len || ni >= new_len {
                return oi >= old_len && ni >= new_len;
            }
            if old_tokens[oi].kind != self.tokens[ni].kind {
                return false;
            }
            k = k + 1;
        }
        true
    }

    /// Reuse a subtree of the earlier parse for the expression at the current
    /// token, if that is sound: candidates start at the same byte, widest
    /// first.
    pub(crate) fn try_reuse(&mut self, min_prec: u32) -> (r: Option<Arc<Node>>)
        requires
            old(self).inv(),
        ensures
            final(self).inv(),
            final(self).same(old(self)),
            final(self).stack@ == old(self).stack@,
            r is Some <==> old(self).world().some_reusable(old(self).pos as int, min_prec as int),
            r matches Some(n) ==> exists|start: u32, i: int| #[trigger]
                old(self).world().taken(old(self).pos as int, min_prec as int, n, start, i),
            old(self).world().looked_up(old(self).pos as int, min_prec as int, old(self).stats) == (
                final(self).stats,
                r is Some,
            ),
            match r {
                Some(n) => {
                    &&& old(self).reuse is Some
                    &&& parse_at(old(self).toks(), old(self).pos as int, min_prec as int)
                        == Out::Done(norm(n@), final(self).pos as int)
                    &&& fits(old(self).toks(), old(self).pos as int, n@)
                    &&& n.weighted()
                    &&& minted(old(self).cached(), &*n, old(self).ids.next, final(self).ids.next)
                    &&& old(self).strict() ==> grouped(n@)
                    &&& old(self).even() ==> levelled(n@)
                    &&& old(self).world().kept(old(self).pos as int, min_prec as int).subset_of(
                        subtrees(&*n),
                    )
                },
                None => final(self).pos == old(self).pos && old(self).world().chosen(
                    old(self).pos as int,
                    min_prec as int,
                ) is None,
            },
        decreases old(self).tokens@.len() - old(self).pos, room(min_prec as int), 2int,
    {
        proof {
            self.world().lemma_looked_up(self.pos as int, min_prec as int, self.stats);
        }
        let reuse = match self.reuse {
            Some(r) => r,
            None => {
                return None;
            },
        };
        proof {
            lemma_lex_bound(self.src.spec_bytes(), self.pos as int);
            crate::expr::edit::law_applied_len(reuse.edit, reuse.old_src.spec_bytes());
        }
        let here: u32 = self.peek().start;
        let old_byte: u32 = match reuse.new_byte_to_old(here) {
            Some(b) => b,
            None => {
                return None;
            },
        };
        let cands = match reuse.cache.by_byte.get(old_byte as u64) {
            Some(v) => v,
            None => {
                proof {
                    self.world().lemma_tried(
                        reuse,
                        self.pos as int,
                        old_byte as int,
                        0,
                        min_prec as int,
                        self.stats,
                    );
                }
                return None;
            },
        };
        let mut i: usize = 0;
        while i < cands.len()
            invariant
                i <= cands@.len(),
                self.inv(),
                self.same(old(self)),
                self.pos == old(self).pos,
                self.stack@ == old(self).stack@,
                self.reuse == Some(reuse),
                here == self.toks()[self.pos as int].start,
                reuse.edit.moved(old_byte as int) == Some(here as int),
                cands@ == reuse.cache.by_byte.cands(old_byte as u64),
                forall|k: int|
                    0 <= k < i ==> !old(self).world().reusable(
                        reuse,
                        old(self).pos as int,
                        #[trigger] cands@[k],
                        old_byte as int,
                        min_prec as int,
                    ),
                old(self).world().earlier(reuse, old(self).pos as int) == Some(old_byte as int),
                old(self).world().looked_up(
                    old(self).pos as int,
                    min_prec as int,
                    old(self).stats,
                ) == old(self).world().tried(
                    reuse,
                    old(self).pos as int,
                    old_byte as int,
                    i as int,
                    min_prec as int,
                    self.stats,
                ),
            decreases cands@.len() - i,
        {
            proof {
                assert(entry_ok(
                    lex(reuse.old_src.spec_bytes()),
                    old_byte as u64,
                    *reuse.cache.by_byte.cands(old_byte as u64)[i as int],
                ));
                lemma_cand_cached(reuse.cache, old_byte as u64, i as int);
            }
            assert(self.world() == old(self).world());
            proof {
                self.world().lemma_tried(
                    reuse,
                    self.pos as int,
                    old_byte as int,
                    i as int,
                    min_prec as int,
                    self.stats,
                );
            }
            let ghost n0 = self.ids.next;
            if let Some(n) = self.try_candidate(reuse, &cands[i], old_byte, min_prec) {
                proof {
                    lemma_range(
                        self.cached(),
                        &*n,
                        n0,
                        self.ids.next,
                        old(self).ids.next,
                        self.ids.next,
                    );
                    assert(old(self).world().reusable(
                        reuse,
                        old(self).pos as int,
                        reuse.cache.by_byte.cands(old_byte as u64)[i as int],
                        old_byte as int,
                        min_prec as int,
                    ));
                    assert(old(self).world().comes_first(
                        reuse,
                        old(self).pos as int,
                        old_byte as int,
                        i as int,
                        min_prec as int,
                    ));
                    old(self).world().lemma_chosen(
                        reuse,
                        old(self).pos as int,
                        old_byte as int,
                        i as int,
                        min_prec as int,
                    );
                    assert(old(self).world().taken(
                        old(self).pos as int,
                        min_prec as int,
                        n,
                        old_byte,
                        i as int,
                    ));
                }
                return Some(n);
            }
            i = i + 1;
        }
        assert(self.world() == old(self).world());
        proof {
            self.world().lemma_tried(
                reuse,
                self.pos as int,
                old_byte as int,
                i as int,
                min_prec as int,
                self.stats,
            );
        }
        None
    }

    /// Reuse `cand`, which starts at `old_start` in the old source, if that is
    /// sound.
    #[verifier::spinoff_prover]
    #[verifier::rlimit(60)]
    fn try_candidate(
        &mut self,
        reuse: Reuse<'a>,
        cand: &Arc<Node>,
        old_start: u32,
        min_prec: u32,
    ) -> (r: Option<Arc<Node>>)
        requires
            old(self).inv(),
            old(self).reuse == Some(reuse),
            entry_ok(lex(reuse.old_src.spec_bytes()), old_start as u64, **cand),
            reuse.edit.moved(old_start as int) == Some(old(self).toks()[old(self).pos as int].start),
            from_cache(old(self).cached(), &**cand),
            old(self).strict() ==> grouped(cand@),
            old(self).even() ==> levelled(cand@),
        ensures
            final(self).inv(),
            final(self).same(old(self)),
            final(self).stack@ == old(self).stack@,
            r is Some <==> old(self).world().reusable(
                reuse,
                old(self).pos as int,
                *cand,
                old_start as int,
                min_prec as int,
            ),
            final(self).stats == (if r is Some {
                old(self).world().accepted(
                    reuse,
                    old(self).pos as int,
                    *cand,
                    old_start as int,
                    min_prec as int,
                    old(self).stats,
                )
            } else {
                old(self).world().refused(
                    reuse,
                    old(self).pos as int,
                    *cand,
                    old_start as int,
                    min_prec as int,
                    old(self).stats,
                )
            }),
            r matches Some(n) ==> reuse.edit.untouched(old_start as int, old_start + cand.width)
                ==> n == *cand,
            match r {
                Some(n) => {
                    &&& parse_at(old(self).toks(), old(self).pos as int, min_prec as int)
                        == Out::Done(norm(n@), final(self).pos as int)
                    &&& fits(old(self).toks(), old(self).pos as int, n@)
                    &&& n.weighted()
                    &&& minted(old(self).cached(), &*n, old(self).ids.next, final(self).ids.next)
                    &&& old(self).strict() ==> grouped(n@)
                    &&& old(self).even() ==> levelled(n@)
                    &&& old(self).world().kept_of(
                        reuse,
                        old(self).pos as int,
                        *cand,
                        old_start as int,
                        min_prec as int,
                    ).subset_of(subtrees(&*n))
                },
                None => final(self).pos == old(self).pos,
            },
        decreases old(self).tokens@.len() - old(self).pos, room(min_prec as int), 1int,
    {
        let ghost s = reuse.old_src.spec_bytes();
        let ghost a = lex(s);
        let ghost key = old_start as u64;
        let ghost p = entry_token(a, key, cand);
        let ghost q = p + sn(cand@);
        let ghost b = self.toks();
        proof {
            lemma_lex_toks(s);
            lemma_lex_bound(s, q - 1);
            lemma_lex_bound(self.src.spec_bytes(), self.pos as int);
            crate::expr::edit::law_applied_len(reuse.edit, s);
            assert(entry_at(a, p, key, **cand));
            assert(cand.width == a[q - 1].end - a[p].start);
        }
        self.stats.reuse_attempts = self.stats.reuse_attempts.saturating_add(1);
        assert(self.stats == attempted(old(self).stats));
        assert(self.world() == old(self).world());
        if reuse.lookahead.is_none() && (min_prec >= cand.m_spine || min_prec < cand.stop_lbp) {
            self.stats.reuse_rejected_precedence = self.stats.reuse_rejected_precedence.saturating_add(
                1,
            );
            return None;
        }
        let old_end: u32 = old_start + cand.width;
        let (new_start, new_end) = match reuse.edit.translate_old_range(old_start, old_end) {
            Some(x) => x,
            None => {
                if reuse.lookahead.is_none() {
                    let ghost w = old(self).world();
                    let ghost st = old(self).stats;
                    if let Some(n) = self.try_splice_chain(
                        reuse,
                        cand,
                        old_start,
                        old_end,
                        min_prec,
                        Ghost(p),
                    ) {
                        proof {
                            w.lemma_kept_chain(
                                reuse,
                                old(self).pos as int,
                                *cand,
                                old_start as int,
                                min_prec as int,
                            );
                            w.lemma_accepted_chain(
                                reuse,
                                old(self).pos as int,
                                *cand,
                                old_start as int,
                                min_prec as int,
                                st,
                            );
                        }
                        return Some(n);
                    }
                    let ghost n1 = self.ids.next;
                    if let Some(n) = self.try_splice_general(
                        reuse,
                        cand,
                        old_start,
                        old_end,
                        min_prec,
                        Ghost(p),
                    ) {
                        proof {
                            lemma_range(
                                self.cached(),
                                &*n,
                                n1,
                                self.ids.next,
                                old(self).ids.next,
                                self.ids.next,
                            );
                            reveal(put_together);
                            w.lemma_kept_general(
                                reuse,
                                old(self).pos as int,
                                *cand,
                                old_start as int,
                                min_prec as int,
                            );
                            w.lemma_accepted_general(
                                reuse,
                                old(self).pos as int,
                                *cand,
                                old_start as int,
                                min_prec as int,
                                st,
                            );
                        }
                        return Some(n);
                    }
                }
                self.stats.reuse_rejected_changed = self.stats.reuse_rejected_changed.saturating_add(
                    1,
                );
                return None;
            },
        };
        if !self.boundary_bytes_match(reuse.old_src, old_start, old_end, new_start, new_end) {
            self.stats.reuse_rejected_changed = self.stats.reuse_rejected_changed.saturating_add(1);
            return None;
        }
        let target: usize = match self.find_token_index(new_end) {
            Some(i) => {
                proof {
                    let w = old(self).world();
                    let pos = old(self).pos as int;
                    assert(w.comes_next(pos, new_end as int, i as int));
                    assert forall|k: int| #[trigger]
                        w.comes_next(pos, new_end as int, k) implies k == i by {}
                }
                i
            },
            None => {
                self.stats.reuse_rejected_changed = self.stats.reuse_rejected_changed.saturating_add(
                    1,
                );
                return None;
            },
        };
        match reuse.lookahead {
            None => {
                let next_lbp: u32 = lbp(self.tokens[target].kind);
                if next_lbp != cand.stop_lbp {
                    self.stats.reuse_rejected_changed =
                    self.stats.reuse_rejected_changed.saturating_add(1);
                    return None;
                }
            },
            Some(n) => {
                if !self.lookahead_matches(reuse.old_tokens, n, old_end, target) || (n == 0 && lbp(
                    self.tokens[target].kind,
                ) != cand.stop_lbp) {
                    self.stats.reuse_rejected_changed =
                    self.stats.reuse_rejected_changed.saturating_add(1);
                    return None;
                }
                if min_prec > cand.m_floor || min_prec < cand.stop_lbp {
                    self.stats.reuse_rejected_precedence =
                    self.stats.reuse_rejected_precedence.saturating_add(1);
                    return None;
                }
            },
        }
        proof {
            let d = self.pos - p;
            lemma_recurs(*self, reuse, *cand, p, old_start as int, new_start as int, target as int);
            lemma_lex_toks(self.src.spec_bytes());
            assert(band_ok(a, p, cand@));
            lemma_parse(a, p, min_prec as int);
            if reuse.lookahead matches Some(n) && n > 0 {
                let n = reuse.lookahead->0;
                lemma_lookahead(reuse.old_tokens@, s, self.tokens@, n as int, p, q, old_end, target as int);
            }
            assert(b[target as int].kind == self.tokens@[target as int].kind);
            assert(lb(a, q) == lb(b, q + d));
            lemma_reused(a, b, p, d, new_start - old_start, cand@, min_prec as int);
        }
        proof {
            old(self).world().lemma_kept_whole(
                reuse,
                old(self).pos as int,
                *cand,
                old_start as int,
                min_prec as int,
            );
            lemma_root(&**cand);
            old(self).world().lemma_accepted_whole(
                reuse,
                old(self).pos as int,
                *cand,
                old_start as int,
                min_prec as int,
                old(self).stats,
            );
        }
        proof {
            lemma_cached(self.cached(), &**cand, old(self).ids.next, self.ids.next);
        }
        self.pos = target;
        self.stats.nodes_reused = self.stats.nodes_reused.saturating_add(cand.count());
        Some(Arc::clone(cand))
    }
}

/// A cached subtree whose tokens recur, before a token that binds as tightly,
/// is what parsing gives there.
proof fn lemma_reused(
    a: Seq<Tok>,
    b: Seq<Tok>,
    p: int,
    d: int,
    e: int,
    t: crate::expr::ast::Shape,
    m: int,
)
    requires
        toks_ok(a),
        toks_ok(b),
        bands_ok(a, p, t),
        fits(a, p, t),
        0 <= m < no_spine(),
        t.stop_lbp <= m < t.m_spine,
        0 <= p + d,
        p + sn(t) + d < b.len(),
        forall|i: int| p <= i < p + sn(t) ==> same_tok(#[trigger] a[i], b[i + d], e),
        lb(a, p + sn(t)) == lb(b, p + sn(t) + d),
    ensures
        parse_at(b, p + d, m) == Out::Done(norm(t), p + d + sn(t)),
        fits(b, p + d, t),
        node_count(t) <= u32::MAX,
{
    let q = p + sn(t);
    assert(parse_at(a, p, m) == Out::Done(norm(t), q));
    assert(agree(a, b, p, q, d, e));
    lemma_local_parse(a, b, p, q, d, e, p, m);
    lemma_fits_move(a, b, p, q, d, e, p, t);
    lemma_count_bound(a, p, t);
    lemma_toks_len(a, a.len() - 1);
}

/// A lookahead match fixes the kind of the token after a subtree.
proof fn lemma_lookahead(
    old: Seq<Token>,
    s: Seq<u8>,
    new: Seq<Token>,
    n: int,
    p: int,
    q: int,
    old_end: u32,
    target: int,
)
    requires
        s.len() <= u32::MAX,
        models(old, s) == lex(s),
        n >= 1,
        0 <= p < q < old.len(),
        old_end == lex(s)[q - 1].end,
        0 <= target < new.len(),
        exists|x: int| first_is(old, old_end, x) && kinds_agree(old, x, new, target, n),
    ensures
        old[q].kind == new[target].kind,
        lex(s)[q].kind == old[q].kind,
{
    let a = lex(s);
    lemma_lex_toks(s);
    let x = choose|x: int| first_is(old, old_end, x) && kinds_agree(old, x, new, target, n);
    assert(a[x] == old[x].model(s));
    assert(a[q] == old[q].model(s));
    assert(a[q - 1] == old[q - 1].model(s));
    assert(a[q - 1].end <= a[q].start);
    if x > q {
        assert(old[q].start < old_end);
    }
    if x < q {
        assert(a[q - 1].start < a[q - 1].end);
        assert(a[x].start < a[x].end);
        if x < q - 1 {
            assert(a[x].end <= a[q - 1].start);
        }
    }
}

pub proof fn lemma_lex_bound(s: Seq<u8>, i: int)
    requires
        0 <= i < lex(s).len(),
    ensures
        0 <= lex(s)[i].start <= lex(s)[i].end <= s.len(),
        i < lex(s).len() - 1 ==> lex(s)[i].start < lex(s)[i].end,
{
    lemma_lex_from(s, 0);
}

/// The tokens of a cached subtree whose bytes and boundaries are unchanged
/// recur in the new source, up to token `target`.
#[verifier::spinoff_prover]
#[verifier::rlimit(60)]
proof fn lemma_recurs<'a>(
    x: Parser<'a>,
    reuse: Reuse<'a>,
    cand: Arc<Node>,
    p: int,
    os: int,
    ns: int,
    target: int,
)
    requires
        x.inv(),
        reuse.ok(x.src.spec_bytes()),
        ({
            let s = reuse.old_src.spec_bytes();
            let a = lex(s);
            let q = p + sn(cand@);
            let oe = os + cand.width;
            let ne = ns + cand.width;
            &&& entry_at(a, p, os as u64, *cand)
            &&& 0 <= os <= u32::MAX
            &&& reuse.edit.untouched(os, oe)
            &&& reuse.edit.moved(os) == Some(ns)
            &&& ns == x.toks()[x.pos as int].start
            &&& same_boundary(s, x.src.spec_bytes(), os, oe, ns, ne)
            &&& x.pos <= target < x.toks().len()
            &&& x.toks()[target].start >= ne
            &&& forall|k: int| x.pos <= k < target ==> (#[trigger] x.toks()[k]).start < ne
        }),
    ensures
        target == x.pos + sn(cand@),
        forall|i: int|
            p <= i < p + sn(cand@) ==> same_tok(
                #[trigger] lex(reuse.old_src.spec_bytes())[i],
                x.toks()[i + (x.pos - p)],
                ns - os,
            ),
{
    let s = reuse.old_src.spec_bytes();
    let t = x.src.spec_bytes();
    let a = lex(s);
    let b = x.toks();
    let q = p + sn(cand@);
    let e = ns - os;
    lemma_lex_toks(s);
    lemma_lex_bound(s, q - 1);
    crate::expr::edit::law_applied_len(reuse.edit, s);
    assert(cand.width == a[q - 1].end - a[p].start);
    assert(a[p].start == os);
    let hi = a[q - 1].end;
    assert(same_bytes(s, t, os, hi, e)) by {
        assert forall|k: int| os <= k < hi implies #[trigger] s[k] == t[k + e] by {
            crate::expr::edit::law_moved_byte(reuse.edit, s, k);
        }
    }
    lemma_tokens_recur(s, t, p, q, x.pos as int, e);
    let d = x.pos - p;
    assert(b[q + d].start >= hi + e);
    if target < q + d {
        assert(same_tok(a[target - d], b[target - d + d], e));
        assert(a[target - d].start < a[target - d].end);
        if target - d < q - 1 {
            assert(a[target - d].end <= a[q - 1].start);
            assert(a[q - 1].start < a[q - 1].end);
        }
        assert(false);
    }
    if target > q + d {
        assert(b[q + d].start < hi + e);
    }
}

} // verus!
