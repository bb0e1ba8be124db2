//! The parser: a Pratt loop that can take subtrees from an earlier parse.

use std::sync::Arc;
use vstd::prelude::*;
use vstd::string::*;
use vstd::utf8::*;

use crate::expr::edit::{bytes_of, Edit};
use crate::expr::lexer::{lemma_boundary, lemma_boundary_after};
use crate::runtime::ast::{form, join, laid, lemma_share, share, Form, Node, NodeKind};
use crate::runtime::cache::ReuseCache;
use crate::runtime::chain::{
    all_settled, all_stand, build_balanced, closes, ends_at, follows, in_a_row, row_form,
    lemma_chain_laid, settled, stands_in, up_to, ChainOperand,
};
use crate::runtime::cursor::{
    is_digit, is_word, lemma_digits_end, lemma_next_token, lemma_word_end, lex_token,
    longest_symbol, next_token, Lexer,
};
use crate::runtime::grammar::{
    climb, expr, least, lemma_expr, lemma_from_start, lemma_nud, lemma_reached, lemma_reached_nud,
    lemma_reached_step, lemma_stands_count, lemma_stands_moves, lemma_window_of_bytes, nud, stands,
    step, tree_stands, ParseError,
};
use crate::runtime::table::{OperatorClass, Table, Token, TokenKind, MIN_PREC};
use crate::runtime::walk::{at_first, attempted, lexed_one, parsed_one, refused, Earlier, World};
use crate::text::slice;

verus! {

/// What a parse did.
#[derive(Debug, Clone, Copy, PartialEq, Eq, Structural)]
pub struct ReparseStats {
    pub nodes_reused: u32,
    pub nodes_parsed: u32,
    pub reuse_attempts: u32,
    pub reuse_rejected_precedence: u32,
    pub reuse_rejected_changed: u32,
    pub tokens_lexed: u32,
}

impl Default for ReparseStats {
    fn default() -> (r: ReparseStats)
        ensures
            r == (ReparseStats {
                nodes_reused: 0,
                nodes_parsed: 0,
                reuse_attempts: 0,
                reuse_rejected_precedence: 0,
                reuse_rejected_changed: 0,
                tokens_lexed: 0,
            }),
    {
        ReparseStats {
            nodes_reused: 0,
            nodes_parsed: 0,
            reuse_attempts: 0,
            reuse_rejected_precedence: 0,
            reuse_rejected_changed: 0,
            tokens_lexed: 0,
        }
    }
}

// ---- Reuse -------------------------------------------------------------

/// An earlier parse, and the edit since.
#[derive(Clone, Copy)]
pub struct Reuse<'a> {
    pub old_src: &'a str,
    pub edit: &'a Edit,
    pub cache: &'a ReuseCache,
}

impl<'a> Reuse<'a> {
    /// The cache is of the old source, and `new` is the edited one.
    pub open spec fn ok(&self, t: Table, new: Seq<u8>) -> bool {
        &&& t.one_byte_context()
        &&& self.old_src.spec_bytes().len() <= u32::MAX
        &&& self.edit.start <= self.edit.end <= self.old_src.spec_bytes().len()
        &&& new == self.edit.applied(self.old_src.spec_bytes())
        &&& self.cache.ok(t, self.old_src.spec_bytes())
    }

    /// The same, in the mathematical model.
    pub open spec fn earlier(&self) -> Earlier {
        Earlier {
            src: self.old_src.spec_bytes(),
            edit: *self.edit,
            cands: |key: u64| self.cache.cands(key),
        }
    }
}

/// Where a byte of the edited source was; none for an inserted one.
pub open spec fn earlier(edit: Edit, new_byte: int) -> Option<int> {
    if new_byte < edit.start {
        Some(new_byte)
    } else if new_byte >= edit.start + bytes_of(edit.replacement).len() {
        Some(new_byte - edit.delta())
    } else {
        None
    }
}

/// The bytes next to the range are the same in both sources.
pub open spec fn boundaries_match(
    old: Seq<u8>,
    old_start: int,
    old_end: int,
    new: Seq<u8>,
    new_start: int,
    new_end: int,
) -> bool {
    &&& (old_start == 0 && new_start == 0) || (old_start > 0 && new_start > 0 && old[old_start - 1]
        == new[new_start - 1])
    &&& (old_end == old.len() && new_end == new.len()) || (old_end < old.len() && new_end < new.len()
        && old[old_end] == new[new_end])
}

/// The subtree `n`, which started at byte `s`, may stand at byte `r` of the
/// edited source where the parser asks for precedence `m`: `m` is in its band,
/// the edit does not touch it, the bytes next to it are the same, and what
/// follows it binds as before.
pub open spec fn reusable(
    t: Table,
    old: Seq<u8>,
    new: Seq<u8>,
    edit: Edit,
    m: u32,
    s: int,
    r: int,
    n: Arc<Node>,
) -> bool {
    &&& n.stop_lbp <= m < n.m_spine
    &&& edit.untouched(s, s + n.width)
    &&& boundaries_match(old, s, s + n.width, new, r, r + n.width)
    &&& t.left_power(next_token(t, new, r + n.width).kind) == n.stop_lbp
}

/// What may be reused is what parsing gives.
pub proof fn law_reuse_sound(
    t: Table,
    old: Seq<u8>,
    new: Seq<u8>,
    edit: Edit,
    m: u32,
    s: int,
    r: int,
    n: Arc<Node>,
)
    requires
        t.wf(),
        t.one_byte_context(),
        old.len() <= u32::MAX,
        new.len() <= u32::MAX,
        edit.start <= edit.end <= old.len(),
        new == edit.applied(old),
        stands(t, old, s, *n),
        earlier(edit, r) == Some(s),
        0 <= r,
        reusable(t, old, new, edit, m, s, r, n),
    ensures
        stands(t, new, r, *n),
        expr(t, new, r, m) == Ok::<(Form, int), ParseError>((form(t, n), r + n.width)),
{
    let w = n.width as int;
    assert(new.len() == old.len() + edit.delta());
    if s + w <= edit.start {
        assert(r == s);
        assert(old.subrange(s, s + w) =~= new.subrange(r, r + w));
    } else {
        assert(r == s + edit.delta());
        assert(old.subrange(s, s + w) =~= new.subrange(r, r + w));
    }
    lemma_window_of_bytes(t, old, s, new, r, w);
    lemma_stands_moves(t, old, s, new, r, w, 0, n);
    lemma_reached(t, new, r, form(t, n), r + w, n.m_spine, m);
}

// ---- The parser --------------------------------------------------------

pub struct Parser<'a> {
    pub src: &'a str,
    pub lexer: Lexer<'a>,
    pub reuse: Option<Reuse<'a>>,
    pub stats: ReparseStats,
}

impl<'a> Parser<'a> {
    pub open spec fn table(&self) -> Table {
        *self.lexer.table
    }

    pub open spec fn bytes(&self) -> Seq<u8> {
        self.lexer.bytes@
    }

    /// Bytes passed.
    pub open spec fn at(&self) -> int {
        self.lexer.last_end as int
    }

    /// Where the token at hand starts.
    pub open spec fn here(&self) -> int {
        next_token(self.table(), self.bytes(), self.at()).start as int
    }

    pub open spec fn inv(&self) -> bool {
        &&& self.lexer.wf()
        &&& self.bytes() == self.src.spec_bytes()
        &&& self.reuse matches Some(r) ==> r.ok(self.table(), self.bytes())
    }

    /// Nothing is reused.
    pub open spec fn fresh(&self) -> bool {
        self.reuse is None
    }

    /// What the parse goes by.
    pub open spec fn world(&self) -> World {
        World {
            table: self.table(),
            src: self.bytes(),
            earlier: match self.reuse {
                Some(x) => Some(x.earlier()),
                None => None,
            },
        }
    }

    /// What has been counted, the tokens lexed included.
    pub open spec fn tally(&self) -> ReparseStats {
        ReparseStats { tokens_lexed: self.lexer.lexed, ..self.stats }
    }

    /// Nothing but the position and the statistics differ.
    pub open spec fn same(&self, other: &Parser<'a>) -> bool {
        &&& self.inv()
        &&& self.src == other.src
        &&& self.lexer.table == other.lexer.table
        &&& self.lexer.bytes == other.lexer.bytes
        &&& self.reuse == other.reuse
    }

    pub(crate) fn new(table: &'a Table, src: &'a str, reuse: Option<Reuse<'a>>) -> (r: Parser<'a>)
        requires
            table.wf(),
            src.spec_bytes().len() <= u32::MAX,
            reuse matches Some(x) ==> x.ok(*table, src.spec_bytes()),
        ensures
            r.inv(),
            r.table() == *table,
            r.bytes() == src.spec_bytes(),
            r.at() == 0,
            r.reuse == reuse,
            r.tally() == at_first(),
    {
        Parser { src, lexer: Lexer::new(table, src), reuse, stats: ReparseStats::default() }
    }

    pub(crate) fn peek(&self) -> (r: Token)
        requires
            self.inv(),
        ensures
            r == next_token(self.table(), self.bytes(), self.at()),
            r.start <= r.end <= self.bytes().len(),
            self.at() <= r.start,
            !(r.kind is Eof) ==> r.start < r.end,
    {
        proof {
            lemma_next_token(self.table(), self.bytes(), self.at());
        }
        self.lexer.peek()
    }

    fn advance(&mut self)
        requires
            old(self).inv(),
        ensures
            final(self).same(old(self)),
            final(self).at() == next_token(
                old(self).table(),
                old(self).bytes(),
                old(self).at(),
            ).end,
            final(self).tally() == lexed_one(old(self).tally()),
    {
        let _ = self.lexer.advance();
    }

    /// Binding power of the token at hand.
    fn stop_here(&self) -> (r: u32)
        requires
            self.inv(),
        ensures
            r == self.table().left_power(
                next_token(self.table(), self.bytes(), self.at()).kind,
            ),
    {
        let k = self.lexer.peek().kind;
        self.lexer.table.lbp(k)
    }

    fn on_parsed(&mut self)
        requires
            old(self).inv(),
        ensures
            final(self).same(old(self)),
            final(self).lexer == old(self).lexer,
            final(self).tally() == parsed_one(old(self).tally()),
    {
        self.stats.nodes_parsed = self.stats.nodes_parsed.saturating_add(1);
    }

    /// Whether candidate `cand`, which started at `old_start`, may stand at
    /// the token at hand.
    fn may_reuse(&mut self, reuse: Reuse<'a>, min_prec: u32, old_start: u32, cand: &Arc<Node>) -> (r:
        bool)
        requires
            old(self).inv(),
            old(self).reuse == Some(reuse),
            earlier(*reuse.edit, old(self).here()) == Some(old_start as int),
            tree_stands(
                old(self).table(),
                reuse.old_src.spec_bytes(),
                old_start as int,
                *cand,
            ),
        ensures
            final(self).same(old(self)),
            final(self).lexer == old(self).lexer,
            r == reusable(
                old(self).table(),
                reuse.old_src.spec_bytes(),
                old(self).bytes(),
                *reuse.edit,
                min_prec,
                old_start as int,
                old(self).here(),
                *cand,
            ),
            final(self).tally() == (if r {
                attempted(old(self).tally())
            } else {
                refused(old(self).tally(), min_prec, *cand)
            }),
    {
        let ghost t = self.table();
        let ghost old_bytes = reuse.old_src.spec_bytes();
        let ghost new_bytes = self.bytes();
        self.stats.reuse_attempts = self.stats.reuse_attempts.saturating_add(1);
        if min_prec >= cand.m_spine || min_prec < cand.stop_lbp {
            self.stats.reuse_rejected_precedence =
            self.stats.reuse_rejected_precedence.saturating_add(1);
            return false;
        }
        proof {
            assert(stands(t, old_bytes, old_start as int, **cand));
            assert(new_bytes.len() == old_bytes.len() + reuse.edit.delta());
        }
        let old_end: u32 = old_start + cand.width;
        let (new_start, new_end) = match reuse.edit.translate_old_range(old_start, old_end) {
            Some(p) => p,
            None => {
                self.stats.reuse_rejected_changed =
                self.stats.reuse_rejected_changed.saturating_add(1);
                return false;
            },
        };
        assert(new_start == self.here());
        assert(new_end == new_start + cand.width);
        if !boundary_bytes_match(
            reuse.old_src.as_bytes(),
            old_start as usize,
            old_end as usize,
            self.lexer.bytes,
            new_start as usize,
            new_end as usize,
        ) {
            self.stats.reuse_rejected_changed = self.stats.reuse_rejected_changed.saturating_add(1);
            return false;
        }
        let next: Token = lex_token(self.lexer.table, self.lexer.bytes, new_end as usize);
        if self.lexer.table.lbp(next.kind) != cand.stop_lbp {
            self.stats.reuse_rejected_changed = self.stats.reuse_rejected_changed.saturating_add(1);
            return false;
        }
        true
    }

    /// The first candidate that may stand at the token at hand, widest first;
    /// the parser is then past it.
    fn try_reuse(&mut self, min_prec: u32) -> (r: Option<Arc<Node>>)
        requires
            old(self).inv(),
        ensures
            final(self).same(old(self)),
            match r {
                Some(n) => {
                    &&& tree_stands(old(self).table(), old(self).bytes(), old(self).here(), n)
                    &&& old(self).here() + n.width == final(self).at()
                    &&& expr(old(self).table(), old(self).bytes(), old(self).at(), min_prec) == Ok::<
                        (Form, int),
                        ParseError,
                    >((form(old(self).table(), n), final(self).at()))
                    &&& n.stop_lbp <= min_prec < n.m_spine
                    &&& n.stop_lbp == old(self).table().left_power(
                        next_token(
                            old(self).table(),
                            old(self).bytes(),
                            final(self).at(),
                        ).kind,
                    )
                },
                None => final(self).lexer == old(self).lexer,
            },
            (final(self).tally(), r is Some) == old(self).world().looked_up(
                old(self).at(),
                min_prec,
                old(self).tally(),
            ),
            match r {
                Some(n) => old(self).world().taken(old(self).at(), min_prec, n),
                None => !old(self).world().some_reusable(old(self).at(), min_prec),
            },
            old(self).reuse is None ==> r is None,
    {
        let ghost t = self.table();
        let ghost b = self.bytes();
        let ghost h = self.here();
        let ghost w = self.world();
        let ghost at = self.at();
        let reuse: Reuse<'a> = match self.reuse {
            Some(x) => x,
            None => {
                return None;
            },
        };
        let ghost x = reuse.earlier();
        let here: u32 = self.peek().start;
        proof {
            lemma_next_token(t, b, self.at());
            assert(b.len() == reuse.old_src.spec_bytes().len() + reuse.edit.delta());
        }
        let old_start: u32 = match new_byte_to_old(reuse.edit, here) {
            Some(x) => x,
            None => {
                return None;
            },
        };
        let cands = match reuse.cache.inner(old_start as u64) {
            Some(v) => v,
            None => {
                proof {
                    assert((x.cands)(old_start as u64).len() == 0);
                    w.lemma_tried(x, at, min_prec, old_start as int, 0, self.tally());
                }
                return None;
            },
        };
        let mut i: usize = 0;
        while i < cands.len()
            invariant
                i <= cands@.len(),
                self.same(old(self)),
                self.lexer == old(self).lexer,
                old(self).inv(),
                self.reuse == Some(reuse),
                t == self.table(),
                b == self.bytes(),
                h == self.here(),
                h == here,
                cands@ == reuse.cache.cands(old_start as u64),
                earlier(*reuse.edit, h) == Some(old_start as int),
                x == reuse.earlier(),
                w == old(self).world(),
                at == old(self).at(),
                h == w.here(at),
                cands@ == (x.cands)(old_start as u64),
                w.tried(x, at, min_prec, old_start as int, 0, old(self).tally()) == w.tried(
                    x,
                    at,
                    min_prec,
                    old_start as int,
                    i as int,
                    self.tally(),
                ),
                forall|j: int|
                    0 <= j < i ==> !w.may_stand(
                        x,
                        at,
                        min_prec,
                        old_start as int,
                        #[trigger] (x.cands)(old_start as u64)[j],
                    ),
            decreases cands@.len() - i,
        {
            let cand = &cands[i];
            proof {
                w.lemma_tried(x, at, min_prec, old_start as int, i as int, self.tally());
                assert((x.cands)(old_start as u64)[i as int] == *cand);
                assert(tree_stands(
                    t,
                    reuse.old_src.spec_bytes(),
                    old_start as int,
                    reuse.cache.cands(old_start as u64)[i as int],
                ));
            }
            if self.may_reuse(reuse, min_prec, old_start, cand) {
                proof {
                    law_reuse_sound(
                        t,
                        reuse.old_src.spec_bytes(),
                        b,
                        *reuse.edit,
                        min_prec,
                        old_start as int,
                        h,
                        *cand,
                    );
                    lemma_from_start(t, b, self.at(), min_prec);
                    lemma_stands_count(t, b, h, *cand);
                    assert(stands(t, b, h, **cand));
                    let s: int = old_start as int;
                    assert(w.earlier == Some(x));
                    assert(w.may_stand(x, at, min_prec, s, (x.cands)(s as u64)[i as int]));
                    assert(w.first(x, at, min_prec, s, *cand, i as int));
                    assert(w.earlier->0 == x);
                    assert(earlier(w.earlier->0.edit, w.here(at))->0 == s);
                    assert(w.taken(at, min_prec, *cand));
                }
                self.lexer.reposition(here + cand.width);
                self.stats.nodes_reused = self.stats.nodes_reused.saturating_add(cand.count());
                return Some(cand.clone());
            }
            i = i + 1;
        }
        proof {
            w.lemma_tried(x, at, min_prec, old_start as int, i as int, self.tally());
        }
        None
    }
}

/// Where a byte of the edited source was.
fn new_byte_to_old(edit: &Edit, new_byte: u32) -> (r: Option<u32>)
    requires
        edit.start <= edit.end,
        edit.start + bytes_of(edit.replacement).len() <= u32::MAX,
        new_byte - edit.delta() <= u32::MAX,
    ensures
        match r {
            Some(x) => earlier(*edit, new_byte as int) == Some(x as int),
            None => earlier(*edit, new_byte as int) is None,
        },
{
    let n: u32 = edit.replacement.as_str().len() as u32;
    if new_byte < edit.start {
        Some(new_byte)
    } else if new_byte >= edit.start + n {
        Some((new_byte - n - edit.start) + edit.end)
    } else {
        None
    }
}

fn boundary_bytes_match(
    old_src: &[u8],
    old_start: usize,
    old_end: usize,
    new_src: &[u8],
    new_start: usize,
    new_end: usize,
) -> (r: bool)
    requires
        old_start <= old_end <= old_src@.len(),
        new_start <= new_end <= new_src@.len(),
    ensures
        r == boundaries_match(
            old_src@,
            old_start as int,
            old_end as int,
            new_src@,
            new_start as int,
            new_end as int,
        ),
{
    let left_ok: bool = if old_start == 0 {
        new_start == 0
    } else {
        new_start > 0 && old_src[old_start - 1] == new_src[new_start - 1]
    };
    let right_ok: bool = if old_end == old_src.len() {
        new_end == new_src.len()
    } else {
        new_end < new_src.len() && old_src[old_end] == new_src[new_end]
    };
    left_ok && right_ok
}

// ---- The loop ----------------------------------------------------------

/// A parsed operand: a tree that stands in the text.
pub open spec fn node_ok(t: Table, b: Seq<u8>, s: int, n: Arc<Node>, e: int) -> bool {
    &&& s + n.width == e
    &&& tree_stands(t, b, s, n)
}

/// The text of an atom starts and ends at characters.
proof fn lemma_atom_boundaries(t: Table, src: &str, at: int)
    requires
        t.wf(),
        0 <= at <= src.spec_bytes().len() <= u32::MAX,
        t.atom(next_token(t, src.spec_bytes(), at).kind),
    ensures
        is_char_boundary(src.spec_bytes(), next_token(t, src.spec_bytes(), at).start as int),
        is_char_boundary(src.spec_bytes(), next_token(t, src.spec_bytes(), at).end as int),
{
    let b = src.spec_bytes();
    encode_utf8_valid_utf8(src@);
    lemma_next_token(t, b, at);
    let k = next_token(t, b, at);
    let i = k.start as int;
    assert(longest_symbol(t, b, i, t.syms@.len() as int) is None);
    lemma_digits_end(b, i);
    lemma_word_end(b, i);
    if k.kind is Int {
        assert(is_digit(b[k.end - 1]));
    } else {
        assert(is_word(b[k.end - 1]));
    }
    lemma_boundary(b, i);
    lemma_boundary_after(b, k.end as int);
}

impl<'a> Parser<'a> {
    /// Parse an operand.
    #[verifier::rlimit(40)]
    fn nud(&mut self) -> (r: Result<Arc<Node>, ParseError>)
        requires
            old(self).inv(),
        ensures
            final(self).same(old(self)),
            match r {
                Ok(n) => {
                    &&& nud(old(self).table(), old(self).bytes(), old(self).at()) == Ok::<
                        (Form, int),
                        ParseError,
                    >((form(old(self).table(), n), final(self).at()))
                    &&& node_ok(
                        old(self).table(),
                        old(self).bytes(),
                        old(self).here(),
                        n,
                        final(self).at(),
                    )
                    &&& final(self).tally() == old(self).world().counted_operand(
                        old(self).at(),
                        old(self).tally(),
                    )
                    &&& n.m_spine == u32::MAX
                    &&& !(form(old(self).table(), n) is Chain)
                    &&& old(self).fresh() ==> forall|m: u32, w: bool| #[trigger]
                        laid(old(self).table(), *n, m, w)
                },
                Err(x) => nud(old(self).table(), old(self).bytes(), old(self).at()) == Err::<
                    (Form, int),
                    ParseError,
                >(x),
            },
        decreases old(self).bytes().len() - old(self).at(), 1int,
    {
        let ghost t = self.table();
        let ghost b = self.bytes();
        let ghost a = self.at();
        let ghost s = self.here();
        let k: Token = self.peek();
        let table = self.lexer.table;
        proof {
            self.world().lemma_counted_operand(a, self.tally());
            lemma_nud(t, b, a);
            lemma_from_start(t, b, a, 0);
            lemma_nud(t, b, s);
        }
        if table.is_atom(k.kind) {
            self.on_parsed();
            proof {
                lemma_atom_boundaries(t, self.src, a);
            }
            let text = slice(self.src, k.start as usize, k.end as usize);
            self.advance();
            let mut n = Node::atom(text, k.end - k.start);
            n.stop_lbp = self.stop_here();
            let n = Arc::new(n);
            proof {
                lemma_reached_nud(t, b, s);
                lemma_reached(t, b, s, form(t, n), self.at(), u32::MAX, 0);
            }
            return Ok(n);
        }
        if table.is_prefix_op(k.kind) {
            self.on_parsed();
            self.advance();
            let child_min_prec: u32 = table.prefix_rbp(k.kind);
            let child = match self.parse_expr(child_min_prec) {
                Ok(c) => c,
                Err(x) => {
                    return Err(x);
                },
            };
            proof {
                lemma_next_token(t, b, k.end as int);
            }
            let n = Arc::new(
                Node {
                    kind: NodeKind::Prefix { op: k.kind, child },
                    width: self.lexer.last_end() - k.start,
                    m_spine: u32::MAX,
                    stop_lbp: self.stop_here(),
                    m_floor: child_min_prec,
                },
            );
            proof {
                lemma_reached_nud(t, b, s);
                lemma_reached(t, b, s, form(t, n), self.at(), u32::MAX, 0);
                assert(stands(t, b, next_token(t, b, k.end as int).start as int, *child));
            }
            return Ok(n);
        }
        if table.is_open_paren(k.kind) {
            self.on_parsed();
            self.advance();
            let inner = match self.parse_expr(MIN_PREC) {
                Ok(c) => c,
                Err(x) => {
                    return Err(x);
                },
            };
            proof {
                lemma_next_token(t, b, k.end as int);
            }
            let close: Token = self.peek();
            let ghost e = self.at();
            if close.kind != table.close_paren_kind() {
                return Err(ParseError::MissingCloseParen { at: close.start });
            }
            self.advance();
            let n = Arc::new(
                Node {
                    kind: NodeKind::Paren { inner },
                    width: self.lexer.last_end() - k.start,
                    m_spine: u32::MAX,
                    stop_lbp: self.stop_here(),
                    m_floor: 0,
                },
            );
            proof {
                lemma_reached_nud(t, b, s);
                lemma_reached(t, b, s, form(t, n), self.at(), u32::MAX, 0);
                assert(stands(t, b, next_token(t, b, k.end as int).start as int, *inner));
            }
            return Ok(n);
        }
        if k.kind == TokenKind::Eof {
            Err(ParseError::UnexpectedEof)
        } else {
            Err(ParseError::UnexpectedToken { kind: k.kind, at: k.start })
        }
    }

    /// Pass an infix operator and its right operand.
    #[verifier::rlimit(40)]
    fn led(
        &mut self,
        left: Arc<Node>,
        start: u32,
        min_prec: u32,
        spine: u32,
    ) -> (r: Result<Arc<Node>, ParseError>)
        requires
            old(self).inv(),
            old(self).in_loop(start as int, left, min_prec),
            old(self).next_infix(),
            !old(self).table().regroups(old(self).next_kind()),
            spine == least(left.m_spine, old(self).next_power()),
        ensures
            final(self).same(old(self)),
            old(self).stepped(final(self), left, min_prec, r, start as int),
            r matches Ok(n) ==> n.kind is Binary,
            r matches Ok(n) ==> !(form(old(self).table(), n) is Chain),
            r matches Ok(n) ==> old(self).fresh() ==> laid(
                old(self).table(),
                *left,
                min_prec,
                false,
            ) ==> laid(old(self).table(), *n, min_prec, false),
        decreases old(self).bytes().len() - old(self).at(), 1int,
    {
        let ghost t = self.table();
        let ghost b = self.bytes();
        let ghost e0 = self.at();
        let ghost s = start as int;
        let k: Token = self.peek();
        let table = self.lexer.table;
        proof {
            self.world().lemma_counted_loop(e0, min_prec, self.tally());
        }
        self.on_parsed();
        self.advance();
        let rbp: u32 = table.rbp(k.kind);
        proof {
            lemma_expr(t, b, k.end as int, rbp);
            lemma_next_token(t, b, k.end as int);
        }
        let right = match self.parse_expr(rbp) {
            Ok(c) => c,
            Err(x) => {
                return Err(x);
            },
        };
        let n = Arc::new(
            Node {
                kind: NodeKind::Binary { op: k.kind, left, right },
                width: self.lexer.last_end() - start,
                m_spine: spine,
                stop_lbp: self.stop_here(),
                m_floor: min_prec,
            },
        );
        proof {
            assert(step(t, b, e0, form(t, left)) == Some(
                (form(t, n), self.at(), t.left_power(k.kind)),
            ));
            lemma_reached_step(t, b, s, form(t, left), e0, left.m_spine);
            assert(stands(t, b, s, *left));
            assert(stands(t, b, next_token(t, b, k.end as int).start as int, *right));
        }
        Ok(n)
    }

    /// Pass a postfix operator.
    fn parse_postfix_unary(
        &mut self,
        left: Arc<Node>,
        start: u32,
        min_prec: u32,
        spine: u32,
    ) -> (r: Arc<Node>)
        requires
            old(self).inv(),
            old(self).in_loop(start as int, left, min_prec),
            old(self).next_postfix(),
            spine == least(left.m_spine, old(self).next_power()),
        ensures
            final(self).same(old(self)),
            old(self).stepped(final(self), left, min_prec, Ok(r), start as int),
            !(form(old(self).table(), r) is Chain),
            laid(old(self).table(), *left, min_prec, false) ==> laid(
                old(self).table(),
                *r,
                min_prec,
                false,
            ),
    {
        let ghost t = self.table();
        let ghost b = self.bytes();
        let ghost e0 = self.at();
        let ghost s = start as int;
        let k: Token = self.peek();
        proof {
            self.world().lemma_counted_loop(e0, min_prec, self.tally());
        }
        self.on_parsed();
        self.advance();
        let n = Arc::new(
            Node {
                kind: NodeKind::Postfix { op: k.kind, child: left },
                width: self.lexer.last_end() - start,
                m_spine: spine,
                stop_lbp: self.stop_here(),
                m_floor: min_prec,
            },
        );
        proof {
            assert(step(t, b, e0, form(t, left)) == Some(
                (form(t, n), self.at(), t.left_power(k.kind)),
            ));
            lemma_reached_step(t, b, s, form(t, left), e0, left.m_spine);
            assert(stands(t, b, s, *left));
        }
        n
    }

    /// The loop is after `left`, which starts at `s`; an operator that binds
    /// above `m` comes next.
    pub open spec fn in_loop(&self, s: int, left: Arc<Node>, m: u32) -> bool {
        &&& 0 <= s < self.at()
        &&& node_ok(self.table(), self.bytes(), s, left, self.at())
        &&& self.next_power() > m
        &&& left.m_spine > m
    }

    /// Kind of the token at hand.
    pub open spec fn next_kind(&self) -> TokenKind {
        next_token(self.table(), self.bytes(), self.at()).kind
    }

    pub open spec fn next_power(&self) -> u32 {
        self.table().left_power(self.next_kind())
    }

    pub open spec fn next_postfix(&self) -> bool {
        self.table().postfix_of(self.next_kind()) is Some
    }

    pub open spec fn next_infix(&self) -> bool {
        self.table().infix_of(self.next_kind()) is Some
    }

    /// Operators were passed after `left`: parsing goes on as it would have.
    pub open spec fn stepped(
        &self,
        now: &Parser<'a>,
        left: Arc<Node>,
        m: u32,
        r: Result<Arc<Node>, ParseError>,
        s: int,
    ) -> bool {
        let t = self.table();
        let b = self.bytes();
        match r {
            Ok(n) => {
                &&& self.at() < now.at()
                &&& climb(t, b, self.at(), form(t, left), m) == climb(t, b, now.at(), form(t, n), m)
                &&& node_ok(t, b, s, n, now.at())
                &&& n.m_spine == least(left.m_spine, self.next_power())
                &&& self.world().counted_loop(self.at(), m, self.tally())
                    == self.world().counted_loop(now.at(), m, now.tally())
                &&& self.next_infix() ==> now.next_power() <= t.right_power(self.next_kind())
            },
            Err(x) => climb(t, b, self.at(), form(t, left), m) == Err::<(Form, int), ParseError>(x),
        }
    }

    /// Pass one more operator of a chain and its operand.
    #[verifier::rlimit(40)]
    fn chain_operand(
        &mut self,
        op: TokenKind,
        operands: &mut Vec<ChainOperand>,
        Ghost(m): Ghost<u32>,
    ) -> (r: Result<(), ParseError>)
        requires
            old(self).inv(),
            old(self).next_kind() == op,
            old(self).chained(op, old(operands)@),
            m < old(self).next_power(),
        ensures
            final(self).same(old(self)),
            match r {
                Ok(_) => {
                    &&& final(operands)@.len() == old(operands)@.len() + 1
                    &&& final(self).at() > old(self).at()
                    &&& final(operands)@.take(old(operands)@.len() as int) == old(operands)@
                    &&& final(self).chained(op, final(operands)@)
                    &&& final(self).next_power() <= old(self).table().right_power(op)
                    &&& old(self).world().counted_loop(old(self).at(), m, old(self).tally())
                        == old(self).world().counted_loop(final(self).at(), m, final(self).tally())
                    &&& old(self).fresh() && all_settled(
                        old(self).table(),
                        op,
                        old(operands)@,
                        m,
                    ) ==> all_settled(old(self).table(), op, final(operands)@, m)
                    &&& climb(
                        old(self).table(),
                        old(self).bytes(),
                        old(self).at(),
                        row_form(old(self).table(), op, old(operands)@, 0, old(operands)@.len() as int),
                        m,
                    ) == climb(
                        old(self).table(),
                        old(self).bytes(),
                        final(self).at(),
                        row_form(
                            old(self).table(),
                            op,
                            final(operands)@,
                            0,
                            final(operands)@.len() as int,
                        ),
                        m,
                    )
                },
                Err(x) => climb(
                    old(self).table(),
                    old(self).bytes(),
                    old(self).at(),
                    row_form(old(self).table(), op, old(operands)@, 0, old(operands)@.len() as int),
                    m,
                ) == Err::<(Form, int), ParseError>(x),
            },
        decreases old(self).bytes().len() - old(self).at(), 1int,
    {
        let ghost t = self.table();
        let ghost b = self.bytes();
        let ghost os = operands@;
        let ghost n = os.len() as int;
        let ghost e0 = self.at();
        let table = self.lexer.table;
        let k: Token = self.peek();
        proof {
            self.world().lemma_counted_loop(e0, m, self.tally());
        }
        self.advance();
        let start: u32 = self.peek().start;
        let rbp: u32 = table.rbp(op);
        proof {
            lemma_expr(t, b, k.end as int, rbp);
            lemma_next_token(t, b, k.end as int);
        }
        let right = match self.parse_expr(rbp) {
            Ok(c) => c,
            Err(x) => {
                return Err(x);
            },
        };
        operands.push(ChainOperand { start_byte: start, node: right });
        proof {
            let now = operands@;
            lemma_row_grows(t, b, op, os, now, right, start, k, self.at());
            if old(self).fresh() && all_settled(t, op, os, m) {
                assert(t.regroups(op));
                lemma_share(t, op, right);
                assert forall|i: int| 0 <= i < now.len() implies settled(
                    t,
                    op,
                    (#[trigger] now[i]).node,
                    m,
                    i,
                ) by {
                    if i < os.len() {
                        assert(now[i] == os[i]);
                    }
                }
            }
        }
        Ok(())
    }

    /// The operands stand in a row that ends at the token at hand.
    pub open spec fn chained(&self, op: TokenKind, os: Seq<ChainOperand>) -> bool {
        let t = self.table();
        let b = self.bytes();
        &&& t.regroups(op)
        &&& t.infix_of(op) is Some
        &&& t.postfix_of(op) is None
        &&& t.left_power(op) > 0
        &&& in_a_row(t, b, op, os)
        &&& ends_at(os.last()) == self.at()
        &&& os.last().node.stop_lbp == self.next_power()
        &&& forall|i: int, j: int| 0 <= i <= j < os.len() ==> #[trigger] up_to(os, i, j)
        &&& all_stand(t, b, op, os)
    }

    /// Pass all operators of a chain, and build its operands into a balanced
    /// tree.
    #[verifier::rlimit(40)]
    fn parse_assoc_chain(
        &mut self,
        left: Arc<Node>,
        chain_op: TokenKind,
        start: u32,
        Ghost(m): Ghost<u32>,
    ) -> (r: Result<Arc<Node>, ParseError>)
        requires
            old(self).inv(),
            old(self).in_loop(start as int, left, m),
            old(self).next_kind() == chain_op,
            old(self).table().regroups(chain_op),
        ensures
            final(self).same(old(self)),
            old(self).stepped(final(self), left, m, r, start as int),
            r matches Ok(n) ==> n.kind is Binary,
            r matches Ok(n) ==> final(self).next_kind() != chain_op && (form(
                old(self).table(),
                n,
            ) matches Form::Chain { op, items } ==> op == chain_op),
            r matches Ok(n) ==> old(self).fresh() ==> laid(
                old(self).table(),
                *left,
                m,
                false,
            ) && share(old(self).table(), chain_op, left) == 1 ==> laid(
                old(self).table(),
                *n,
                m,
                false,
            ),
        decreases old(self).bytes().len() - old(self).at(), 2int,
    {
        let ghost t = self.table();
        let ghost b = self.bytes();
        let ghost s = start as int;
        let chain_lbp: u32 = self.stop_here();
        let mut operands: Vec<ChainOperand> = Vec::new();
        operands.push(ChainOperand { start_byte: start, node: left });
        proof {
            let os = operands@;
            lemma_regroups(t, chain_op);
            assert(os.last() == os[0]);
            assert(stands(t, b, s, *left));
            assert(stands_in(t, b, chain_op, os, 0));
            assert(up_to(os, 0, 0));
        }
        let mut going: bool = true;
        while going
            invariant
                old(self).inv(),
                self.same(old(self)),
                t == self.table(),
                b == self.bytes(),
                self.chained(chain_op, operands@),
                operands@.len() >= 1,
                operands@[0] == (ChainOperand { start_byte: start, node: left }),
                going ==> self.next_kind() == chain_op,
                !going ==> operands@.len() >= 2 && self.next_kind() != chain_op,
                old(self).fresh() && laid(t, *left, m, false) && share(t, chain_op, left) == 1
                    ==> all_settled(t, chain_op, operands@, m),
                closes(t, chain_op) || operands@.len() == 1 || (operands@.len() == 2 && !going),
                operands@.len() >= 2 ==> self.next_power() <= t.right_power(chain_op),
                operands@.len() >= 2 ==> self.at() > old(self).at(),
                operands@.len() == 1 ==> self.at() == old(self).at(),
                m < t.left_power(chain_op),
                old(self).world().counted_loop(old(self).at(), m, old(self).tally())
                    == old(self).world().counted_loop(self.at(), m, self.tally()),
                climb(t, b, old(self).at(), form(t, left), m) == climb(
                    t,
                    b,
                    self.at(),
                    row_form(t, chain_op, operands@, 0, operands@.len() as int),
                    m,
                ),
            decreases b.len() - self.at(), (if going {
                1int
            } else {
                0
            }),
        {
            let ghost was = operands@;
            match self.chain_operand(chain_op, &mut operands, Ghost(m)) {
                Ok(_) => {},
                Err(x) => {
                    return Err(x);
                },
            }
            proof {
                assert(operands@.take(was.len() as int)[0] == was[0]);
            }
            going = self.peek().kind == chain_op;
        }
        let n: usize = operands.len();
        proof {
            lemma_regroups(t, chain_op);
            assert(row_form(t, chain_op, operands@, 0, n as int) == join(
                t,
                chain_op,
                row_form(t, chain_op, operands@, 0, n - 1),
                form(t, operands@[n - 1].node),
            ));
        }
        let r = build_balanced(chain_op, &operands, 0, n, chain_lbp, Ghost(t), Ghost(b), Ghost(m));
        proof {
            lemma_chain_laid(t, chain_op, operands@, chain_lbp, r, m);
        }
        Ok(r)
    }
}

/// `n`, parsed at precedence `m_floor`. Only the top of a chain does not say so
/// yet.
fn refloor(n: Arc<Node>, m_floor: u32, Ghost(t): Ghost<Table>, Ghost(b): Ghost<Seq<u8>>, Ghost(s): Ghost<int>) -> (r:
    Arc<Node>)
    ensures
        form(t, r) == form(t, n),
        r.width == n.width,
        r.stop_lbp == n.stop_lbp,
        r.m_spine == n.m_spine,
        laid(t, *n, m_floor, false) && n.m_spine < u32::MAX ==> laid(t, *r, m_floor, true),
        tree_stands(t, b, s, n) && m_floor < n.m_spine ==> tree_stands(t, b, s, r),
        n.kind is Binary ==> r.m_floor == m_floor,
        !(n.kind is Binary) ==> r == n,
{
    match &n.kind {
        NodeKind::Binary { op, left, right } => {
            let r = Arc::new(
                Node {
                    kind: NodeKind::Binary { op: *op, left: left.clone(), right: right.clone() },
                    width: n.width,
                    m_spine: n.m_spine,
                    stop_lbp: n.stop_lbp,
                    m_floor,
                },
            );
            proof {
                assert(form(t, r) == form(t, n));
                if tree_stands(t, b, s, n) && m_floor < n.m_spine {
                    assert(stands(t, b, s, *n));
                    assert(stands(t, b, s, *r));
                }
            }
            r
        },
        _ => n,
    }
}

impl<'a> Parser<'a> {
    /// Parse an expression of operators that bind above `min_prec`.
    #[verifier::rlimit(60)]
    pub(crate) fn parse_expr(&mut self, min_prec: u32) -> (r: Result<Arc<Node>, ParseError>)
        requires
            old(self).inv(),
        ensures
            final(self).same(old(self)),
            match r {
                Ok(n) => {
                    &&& expr(old(self).table(), old(self).bytes(), old(self).at(), min_prec) == Ok::<
                        (Form, int),
                        ParseError,
                    >((form(old(self).table(), n), final(self).at()))
                    &&& node_ok(
                        old(self).table(),
                        old(self).bytes(),
                        old(self).here(),
                        n,
                        final(self).at(),
                    )
                    &&& n.m_spine > min_prec || n.m_spine == u32::MAX
                    &&& final(self).tally() == old(self).world().counted(
                        old(self).at(),
                        min_prec,
                        old(self).tally(),
                    )
                    &&& old(self).fresh() ==> laid(old(self).table(), *n, min_prec, true)
                    &&& old(self).fresh() ==> (form(old(self).table(), n) matches Form::Chain { op, items }
                        ==> old(self).table().left_power(op) > min_prec)
                },
                Err(x) => expr(
                    old(self).table(),
                    old(self).bytes(),
                    old(self).at(),
                    min_prec,
                ) == Err::<(Form, int), ParseError>(x),
            },
            old(self).world().some_reusable(old(self).at(), min_prec) ==> (r matches Ok(n)
                && old(self).world().taken(old(self).at(), min_prec, n)),
        decreases old(self).bytes().len() - old(self).at(), 3int,
    {
        let ghost t = self.table();
        let ghost b = self.bytes();
        let ghost a = self.at();
        let ghost s = self.here();
        let ghost whole = expr(t, b, a, min_prec);
        let start: u32 = self.peek().start;
        let table = self.lexer.table;
        let ghost w = self.world();
        let ghost total = w.counted(a, min_prec, self.tally());
        proof {
            w.lemma_counted(a, min_prec, self.tally());
            lemma_expr(t, b, a, min_prec);
            lemma_nud(t, b, a);
            lemma_next_token(t, b, a);
        }
        match self.try_reuse(min_prec) {
            Some(n) => {
                return Ok(n);
            },
            None => {},
        }
        let mut left = match self.nud() {
            Ok(n) => n,
            Err(x) => {
                return Err(x);
            },
        };
        let mut spine_min: u32 = u32::MAX;
        loop
            invariant
                old(self).inv(),
                self.same(old(self)),
                t == self.table(),
                b == self.bytes(),
                table == self.lexer.table,
                a == old(self).at(),
                s == start,
                s == old(self).here(),
                0 <= a <= s < self.at(),
                whole == expr(t, b, a, min_prec),
                whole == climb(t, b, self.at(), form(t, left), min_prec),
                node_ok(t, b, s, left, self.at()),
                left.m_spine == spine_min,
                spine_min > min_prec || spine_min == u32::MAX,
                w == old(self).world(),
                total == w.counted(a, min_prec, old(self).tally()),
                total == w.counted_loop(self.at(), min_prec, self.tally()),
                old(self).fresh() ==> laid(t, *left, min_prec, false),
                old(self).fresh() ==> (form(t, left) matches Form::Chain { op, items } ==> t.left_power(
                    op,
                ) > min_prec && self.next_kind() != op),
                !w.some_reusable(a, min_prec),
            ensures
                self.next_power() <= min_prec,
            decreases b.len() - self.at(),
        {
            let k: TokenKind = self.peek().kind;
            let power: u32 = table.lbp(k);
            if power <= min_prec {
                break ;
            }
            proof {
                lemma_operator(t, k);
            }
            if power < spine_min {
                spine_min = power;
            }
            let next: Result<Arc<Node>, ParseError> = if table.is_postfix_op(k) {
                Ok(self.parse_postfix_unary(left, start, min_prec, spine_min))
            } else if table.operator_class(k) == OperatorClass::AssociativityConflict {
                self.parse_assoc_chain(left, k, start, Ghost(min_prec))
            } else {
                self.led(left, start, min_prec, spine_min)
            };
            left = match next {
                Ok(n) => n,
                Err(x) => {
                    return Err(x);
                },
            };
        }
        proof {
            w.lemma_counted_loop(self.at(), min_prec, self.tally());
        }
        if spine_min < u32::MAX {
            left = refloor(left, min_prec, Ghost(t), Ghost(b), Ghost(s));
        }
        Ok(left)
    }
}

/// What binds is an infix or a postfix operator.
proof fn lemma_operator(t: Table, k: TokenKind)
    requires
        t.wf(),
        t.left_power(k) > 0,
    ensures
        t.infix_of(k) is Some || t.postfix_of(k) is Some,
        t.postfix_of(k) is Some ==> t.infix_of(k) is None,
        !(k is Eof),
{
}

/// An operator whose chains may be regrouped is an infix operator.
proof fn lemma_regroups(t: Table, op: TokenKind)
    requires
        t.wf(),
        t.regroups(op),
    ensures
        t.infix_of(op) is Some,
        t.postfix_of(op) is None,
        op matches TokenKind::Sym(i) && i < t.syms@.len(),
{
}

/// One more operand in a row.
proof fn lemma_row_grows(
    t: Table,
    b: Seq<u8>,
    op: TokenKind,
    os: Seq<ChainOperand>,
    now: Seq<ChainOperand>,
    right: Arc<Node>,
    start: u32,
    k: Token,
    e: int,
)
    requires
        t.wf(),
        b.len() <= u32::MAX,
        t.regroups(op),
        in_a_row(t, b, op, os),
        forall|i: int, j: int| 0 <= i <= j < os.len() ==> #[trigger] up_to(os, i, j),
        all_stand(t, b, op, os),
        now == os.push(ChainOperand { start_byte: start, node: right }),
        k == next_token(t, b, ends_at(os.last())),
        k.kind == op,
        k.end <= b.len(),
        start == next_token(t, b, k.end as int).start,
        expr(t, b, k.end as int, t.right_power(op)) == Ok::<(Form, int), ParseError>(
            (form(t, right), e),
        ),
        node_ok(t, b, start as int, right, e),
        e <= b.len(),
    ensures
        in_a_row(t, b, op, now),
        forall|i: int, j: int| 0 <= i <= j < now.len() ==> #[trigger] up_to(now, i, j),
        all_stand(t, b, op, now),
        row_form(t, op, now, 0, now.len() as int) == join(
            t,
            op,
            row_form(t, op, os, 0, os.len() as int),
            form(t, right),
        ),
        now.take(os.len() as int) == os,
{
    let n = os.len() as int;
    lemma_row_same(t, op, os, now, n);
    assert(now.take(n) =~= os);
    assert(now[n - 1] == os.last());
    assert forall|i: int| 0 < i < now.len() implies #[trigger] follows(t, b, op, now, i) by {
        if i < n {
            assert(follows(t, b, op, os, i));
            assert(now[i] == os[i] && now[i - 1] == os[i - 1]);
        }
    }
    lemma_next_token(t, b, ends_at(os.last()));
    lemma_next_token(t, b, k.end as int);
    assert forall|i: int, j: int| 0 <= i <= j < now.len() implies #[trigger] up_to(now, i, j) by {
        if j < n {
            assert(up_to(os, i, j));
        } else if i < n {
            assert(up_to(os, i, n - 1));
        }
    }
    assert forall|i: int| 0 <= i < now.len() implies #[trigger] stands_in(t, b, op, now, i) by {
        if i < n {
            assert(stands_in(t, b, op, os, i));
        }
    }
}

proof fn lemma_row_same(
    t: Table,
    op: TokenKind,
    os: Seq<ChainOperand>,
    now: Seq<ChainOperand>,
    k: int,
)
    requires
        0 < k <= os.len(),
        k <= now.len(),
        forall|i: int| 0 <= i < k ==> os[i] == now[i],
    ensures
        row_form(t, op, os, 0, k) == row_form(t, op, now, 0, k),
    decreases k,
{
    if k > 1 {
        lemma_row_same(t, op, os, now, k - 1);
    }
}

} // verus!
