//! Splicing around an edit that changes the operands of a chain: the operands
//! before and after the edit are kept in whole subtrees, those between are
//! parsed again, and all of them are joined into one balanced chain.

use std::sync::Arc;
use vstd::prelude::*;
use vstd::string::*;

use crate::expr::assemble::{
    chained, lemma_at_order, lemma_chain_rbp, lemma_chained_listed, lemma_chained_one, lemma_chained_prefix,
    lemma_chained_push, lemma_chained_tail,
};
use crate::expr::ast::{node_count, same_kids, IdSource, Node, NodeKind, Shape};
use crate::expr::cache::{ReuseCache, entry_at, SpanTable};
use crate::expr::chain_wb::{
    chain_place, concat_upto, covers, cut, grown, join_all, lemma_covers_push, lemma_cut_prefix,
    lemma_concat_new, lemma_grown_stamped, lemma_own_spine, off, part_ok, spine, unit_ok, Spine,
};
use crate::expr::grammar::{
    at, is_chain_of, lb, lemma_lt_prefix, lt, nt, parse_at, placed, toks_ok, Form, Out,
};
use crate::expr::lexer::{lex, Tok, TokenKind};
use crate::expr::locality::same_tok;
use crate::expr::op::{chain_kind, is_associativity_conflict, lbp, lbp_of, rbp, rbp_of};
use crate::expr::placement::lemma_parse;
use crate::expr::naming::{
    all_cached, all_minted, built, from_cache, lemma_all_none, lemma_all_push, lemma_gathered,
    lemma_cached_push, lemma_kid_cached, lemma_rebuilt, minted, within,
};
use crate::expr::pratt_core::{lemma_lex_toks, operands_levelled, stamp_stop, ChainOperand, Parser};
use crate::expr::resume::parses;
use crate::expr::reuse::{lemma_lex_bound, Reuse};
use crate::expr::shape::{bands_ok, fits, flat, inner_ok, is_bin, lemma_flat_nonempty, lemma_part_tokens, lemma_restamp, level, levelled, norm, sn};
use crate::expr::incremental::ReparseStats;
use crate::expr::splice::{
    lemma_after_edit, lemma_before_edit, lemma_cached_chain, lemma_count_part, lemma_end_tok, lemma_halves,
    chain_edited, lemma_order_bytes, lemma_part_moves, lemma_spliced_done, old_part, recorded,
    span_is,
};
use crate::expr::subtrees::{
    among, held, law_operands_stand, lemma_among_push, lemma_rejoined, lemma_units_level, operands_in,
    subtrees,
};
use crate::expr::walk::{kept_nodes, reused, room, side_nodes, side_units};

verus! {

/// Operand `k` ends before byte `e_lo`, with a byte between.
pub open spec fn ends_before(a: Seq<Tok>, p: int, fs: Seq<Form>, k: int, e_lo: int) -> bool {
    a[at(p, fs, k + 1) - 2].end < e_lo
}

/// Operand `k` starts after byte `e_hi`, with a byte between.
pub open spec fn starts_after(a: Seq<Tok>, p: int, fs: Seq<Form>, k: int, e_hi: int) -> bool {
    a[at(p, fs, k)].start > e_hi
}

/// Number of operands among the first `k` that end before `e_lo`.
pub open spec fn left_count(a: Seq<Tok>, p: int, fs: Seq<Form>, e_lo: int, k: int) -> int
    decreases k,
{
    if k <= 0 {
        0
    } else if ends_before(a, p, fs, k - 1, e_lo) {
        k
    } else {
        left_count(a, p, fs, e_lo, k - 1)
    }
}

/// First operand from number `k` on that starts after `e_hi`.
pub open spec fn right_start(a: Seq<Tok>, p: int, fs: Seq<Form>, e_hi: int, k: int) -> int
    decreases fs.len() - k,
{
    if k >= fs.len() {
        fs.len() as int
    } else if starts_after(a, p, fs, k, e_hi) {
        k
    } else {
        right_start(a, p, fs, e_hi, k + 1)
    }
}

/// `x` operands end before the edit, and those from `y` on start after it.
pub open spec fn split_at(a: Seq<Tok>, p: int, fs: Seq<Form>, e_lo: int, e_hi: int, x: int, y: int) -> bool {
    &&& 0 <= x <= y <= fs.len()
    &&& forall|k: int| 0 <= k < fs.len() ==> (#[trigger] ends_before(a, p, fs, k, e_lo) <==> k < x)
    &&& forall|k: int| 0 <= k < fs.len() ==> (#[trigger] starts_after(a, p, fs, k, e_hi) <==> y <= k)
}

proof fn lemma_left_count(a: Seq<Tok>, p: int, op: TokenKind, fs: Seq<Form>, e_lo: int, n: int)
    requires
        chain_place(a, p, op, fs),
        0 <= n <= fs.len(),
    ensures
        0 <= left_count(a, p, fs, e_lo, n) <= n,
        forall|k: int|
            0 <= k < n ==> (#[trigger] ends_before(a, p, fs, k, e_lo) <==> k < left_count(
                a,
                p,
                fs,
                e_lo,
                n,
            )),
    decreases n,
{
    if n > 0 {
        lemma_left_count(a, p, op, fs, e_lo, n - 1);
        if ends_before(a, p, fs, n - 1, e_lo) {
            assert forall|k: int| 0 <= k < n implies #[trigger] ends_before(a, p, fs, k, e_lo) by {
                lemma_order_bytes(a, p, op, fs, k + 1, n);
            }
        }
    }
}

proof fn lemma_right_start(a: Seq<Tok>, p: int, op: TokenKind, fs: Seq<Form>, e_hi: int, n: int)
    requires
        chain_place(a, p, op, fs),
        0 <= n <= fs.len(),
    ensures
        n <= right_start(a, p, fs, e_hi, n) <= fs.len(),
        forall|k: int|
            n <= k < fs.len() ==> (#[trigger] starts_after(a, p, fs, k, e_hi) <==> right_start(
                a,
                p,
                fs,
                e_hi,
                n,
            ) <= k),
    decreases fs.len() - n,
{
    if n < fs.len() {
        lemma_right_start(a, p, op, fs, e_hi, n + 1);
        if starts_after(a, p, fs, n, e_hi) {
            assert forall|k: int| n <= k < fs.len() implies #[trigger] starts_after(a, p, fs, k, e_hi) by {
                lemma_order_bytes(a, p, op, fs, n, k);
            }
        }
    }
}

proof fn lemma_split(a: Seq<Tok>, p: int, op: TokenKind, fs: Seq<Form>, e_lo: int, e_hi: int)
    requires
        chain_place(a, p, op, fs),
        e_lo <= e_hi,
    ensures
        split_at(
            a,
            p,
            fs,
            e_lo,
            e_hi,
            left_count(a, p, fs, e_lo, fs.len() as int),
            right_start(a, p, fs, e_hi, 0),
        ),
{
    let x = left_count(a, p, fs, e_lo, fs.len() as int);
    let y = right_start(a, p, fs, e_hi, 0);
    lemma_left_count(a, p, op, fs, e_lo, fs.len() as int);
    lemma_right_start(a, p, op, fs, e_hi, 0);
    if x > y {
        assert(ends_before(a, p, fs, y, e_lo));
        assert(starts_after(a, p, fs, y, e_hi));
        lemma_order_bytes(a, p, op, fs, y, y + 1);
    }
}

/// Every unit's subtrees may be reused in their bands.
pub open spec fn banded(
    a: Seq<Tok>,
    p: int,
    op: TokenKind,
    fs: Seq<Form>,
    us: Seq<ChainOperand>,
    i: int,
) -> bool {
    forall|k: int|
        0 <= k < us.len() ==> bands_ok(a, at(p, fs, #[trigger] off(us, op, i, k)), us[k].node@)
}

proof fn lemma_banded_push(
    a: Seq<Tok>,
    p: int,
    op: TokenKind,
    fs: Seq<Form>,
    us: Seq<ChainOperand>,
    u: ChainOperand,
    i: int,
)
    requires
        banded(a, p, op, fs, us, i),
        bands_ok(a, at(p, fs, off(us, op, i, us.len() as int)), u.node@),
    ensures
        banded(a, p, op, fs, us.push(u), i),
{
    let vs = us.push(u);
    assert forall|k: int| 0 <= k < vs.len() implies bands_ok(
        a,
        at(p, fs, #[trigger] off(vs, op, i, k)),
        vs[k].node@,
    ) by {
        lemma_cut_prefix(vs, us, op, k);
        assert(off(us, op, i, k) == off(vs, op, i, k));
        if k < us.len() {
            assert(vs[k] == us[k]);
        }
    }
}

pub open spec fn less_of(x: int, y: int) -> int {
    if x <= y {
        x
    } else {
        y
    }
}

pub open spec fn more_of(x: int, y: int) -> int {
    if x <= y {
        y
    } else {
        x
    }
}

/// The spans of the largest subtrees of `node`, at `[s, e)`, before and after
/// the edit, and of all above them, are on record.
pub open spec fn units_recorded(
    table: SpanTable,
    node: Arc<Node>,
    s: int,
    e: int,
    e_lo: int,
    e_hi: int,
    op: TokenKind,
) -> bool
    decreases node,
{
    &&& recorded(table, node.id, s, e)
    &&& e < e_lo || s > e_hi || match node.kind {
        NodeKind::Binary { op: o, left, right } => o == op ==> units_recorded(
            table,
            left,
            s,
            s + left.width,
            e_lo,
            e_hi,
            op,
        ) && units_recorded(table, right, e - right.width, e, e_lo, e_hi, op),
        _ => true,
    }
}

/// Collect the largest subtrees of `node` before and after the edit
/// `[e_lo, e_hi)`, in source order; `false` if a span is not on record.
#[verifier::rlimit(60)]
fn collect_chain_units<'a>(
    table: &SpanTable,
    node: &Arc<Node>,
    s: u32,
    e: u32,
    e_lo: u32,
    e_hi: u32,
    op: TokenKind,
    left: &mut Vec<ChainOperand>,
    right: &mut Vec<ChainOperand>,
    Ghost(a): Ghost<Seq<Tok>>,
    Ghost(p): Ghost<int>,
    Ghost(fs): Ghost<Seq<Form>>,
    Ghost(i): Ghost<int>,
    Ghost(j): Ghost<int>,
    Ghost(x): Ghost<int>,
    Ghost(y): Ghost<int>,
    Ghost(cache): Ghost<Option<&'a ReuseCache>>,
) -> (r: bool)
    requires
        from_cache(cache, &**node),
        all_cached(cache, old(left)@),
        all_cached(cache, old(right)@),
        table.wf(),
        chain_place(a, p, op, fs),
        e_lo <= e_hi,
        old_part(a, p, op, fs, **node, i, j, s as int, e as int),
        split_at(a, p, fs, e_lo as int, e_hi as int, x, y),
        covers(a, p, op, fs, old(left)@, 0, less_of(i, x)),
        banded(a, p, op, fs, old(left)@, 0),
        covers(a, p, op, fs, old(right)@, y, more_of(i, y)),
        banded(a, p, op, fs, old(right)@, y),
    ensures
        all_cached(cache, final(left)@),
        all_cached(cache, final(right)@),
        r == units_recorded(
            *table,
            *node,
            s as int,
            e as int,
            e_lo as int,
            e_hi as int,
            op,
        ),
        r ==> {
            &&& nodes_in(final(left)@) == nodes_in(old(left)@) + side_units(
                *node,
                s as int,
                e as int,
                e_lo as int,
                e_hi as int,
                op,
                true,
            )
            &&& nodes_in(final(right)@) == nodes_in(old(right)@) + side_units(
                *node,
                s as int,
                e as int,
                e_lo as int,
                e_hi as int,
                op,
                false,
            )
            &&& units_nodes(final(left)@, final(left)@.len() as int) == units_nodes(
                old(left)@,
                old(left)@.len() as int,
            ) + side_nodes(
                *node,
                s as int,
                e as int,
                e_lo as int,
                e_hi as int,
                op,
                true,
            )
            &&& units_nodes(final(right)@, final(right)@.len() as int) == units_nodes(
                old(right)@,
                old(right)@.len() as int,
            ) + side_nodes(
                *node,
                s as int,
                e as int,
                e_lo as int,
                e_hi as int,
                op,
                false,
            )
            &&& covers(a, p, op, fs, final(left)@, 0, less_of(j, x))
            &&& banded(a, p, op, fs, final(left)@, 0)
            &&& covers(a, p, op, fs, final(right)@, y, more_of(j, y))
            &&& banded(a, p, op, fs, final(right)@, y)
        },
    decreases node,
{
    if !span_is(table, node.id, s, e) {
        return false;
    }
    proof {
        lemma_flat_nonempty(node@, op);
        assert(flat(node@, op).len() == j - i);
        assert(ends_before(a, p, fs, j - 1, e_lo as int) == (e < e_lo));
        assert(starts_after(a, p, fs, i, e_hi as int) == (s > e_hi));
    }
    if e < e_lo {
        let u = ChainOperand { start_byte: s, node: Arc::clone(node) };
        proof {
            lemma_covers_push(a, p, op, fs, left@, u, 0, i);
            lemma_banded_push(a, p, op, fs, left@, u, 0);
            lemma_units_push(left@, u);
            lemma_cached_push(cache, left@, u);
            lemma_nodes_push(left@, u);
            lemma_nodes_push(right@, u);
        }
        left.push(u);
        return true;
    }
    if s > e_hi {
        let u = ChainOperand { start_byte: s, node: Arc::clone(node) };
        proof {
            lemma_covers_push(a, p, op, fs, right@, u, y, i);
            lemma_banded_push(a, p, op, fs, right@, u, y);
            lemma_units_push(right@, u);
            lemma_cached_push(cache, right@, u);
            lemma_nodes_push(left@, u);
            lemma_nodes_push(right@, u);
        }
        right.push(u);
        return true;
    }
    match &node.kind {
        NodeKind::Binary { op: o, left: l, right: r } => if *o == op {
            proof {
                lemma_halves(a, p, op, fs, *node, i, j, s as int, e as int);
            }
            let ghost k = i + flat(l@, op).len();
            proof {
                lemma_kid_cached(cache, &**node, &**l);
                lemma_kid_cached(cache, &**node, &**r);
            }
            let le: u32 = s + l.width;
            let rs: u32 = e - r.width;
            let ghost (l0, r0) = (nodes_in(left@), nodes_in(right@));
            if !collect_chain_units(
                table,
                l,
                s,
                le,
                e_lo,
                e_hi,
                op,
                left,
                right,
                Ghost(a),
                Ghost(p),
                Ghost(fs),
                Ghost(i),
                Ghost(k),
                Ghost(x),
                Ghost(y),
                Ghost(cache),
            ) {
                return false;
            }
            if !collect_chain_units(
                table,
                r,
                rs,
                e,
                e_lo,
                e_hi,
                op,
                left,
                right,
                Ghost(a),
                Ghost(p),
                Ghost(fs),
                Ghost(k),
                Ghost(j),
                Ghost(x),
                Ghost(y),
                Ghost(cache),
            ) {
                return false;
            }
            proof {
                let (lo, hi) = (e_lo as int, e_hi as int);
                let (a1, a2) = (
                    side_units(*l, s as int, le as int, lo, hi, op, true),
                    side_units(*r, rs as int, e as int, lo, hi, op, true),
                );
                assert((l0 + a1) + a2 =~= l0 + (a1 + a2));
                let (b1, b2) = (
                    side_units(*l, s as int, le as int, lo, hi, op, false),
                    side_units(*r, rs as int, e as int, lo, hi, op, false),
                );
                assert((r0 + b1) + b2 =~= r0 + (b1 + b2));
            }
            return true;
        },
        _ => {},
    }
    proof {
        assert(!is_bin(node@, op));
        assert(j == i + 1);
        assert(nodes_in(left@) + Seq::empty() =~= nodes_in(left@));
        assert(nodes_in(right@) + Seq::empty() =~= nodes_in(right@));
    }
    true
}

proof fn lemma_nodes_push(us: Seq<ChainOperand>, u: ChainOperand)
    ensures
        nodes_in(us.push(u)) == nodes_in(us) + seq![u.node],
        nodes_in(us) + Seq::empty() == nodes_in(us),
{
    assert(nodes_in(us.push(u)) =~= nodes_in(us) + seq![u.node]);
    assert(nodes_in(us) + Seq::empty() =~= nodes_in(us));
}

/// Freshly parsed operands stand for list elements `n..` of `gs`, in place.
pub open spec fn mid_ok(
    b: Seq<Tok>,
    p2: int,
    op: TokenKind,
    gs: Seq<Form>,
    mid: Seq<ChainOperand>,
    n: int,
) -> bool {
    &&& gs.len() == n + mid.len()
    &&& forall|k: int|
        0 <= k < mid.len() ==> {
            &&& (#[trigger] mid[k]).start_byte == b[at(p2, gs, n + k)].start
            &&& norm(mid[k].node@) == gs[n + k]
            &&& fits(b, at(p2, gs, n + k), mid[k].node@)
            &&& mid[k].node.weighted()
            &&& !is_bin(mid[k].node@, op)
        }
}

/// Where the parser stands between the operands of a chain: after its
/// operator if `connected`, else after an operand.
pub open spec fn between(
    b: Seq<Tok>,
    p2: int,
    op: TokenKind,
    gs: Seq<Form>,
    pos: int,
    connected: bool,
) -> bool {
    if gs.len() == 0 {
        connected && pos == p2
    } else {
        &&& chained(b, p2, op, gs)
        &&& connected ==> pos == at(p2, gs, gs.len() as int) && b[pos - 1].kind == op
        &&& !connected ==> pos == at(p2, gs, gs.len() as int) - 1 && b[pos].kind != op
    }
}

/// One more operand.
proof fn lemma_mid_push(
    b: Seq<Tok>,
    p2: int,
    op: TokenKind,
    gs: Seq<Form>,
    mid: Seq<ChainOperand>,
    n: int,
    pos: int,
    u: ChainOperand,
)
    requires
        toks_ok(b),
        chain_kind(op),
        0 <= n,
        0 <= p2,
        mid_ok(b, p2, op, gs, mid, n),
        between(b, p2, op, gs, pos, true),
        0 <= pos < b.len(),
        u.start_byte == b[pos].start,
        parse_at(b, pos, rbp_of(op) as int) == Out::Done(norm(u.node@), pos + sn(u.node@)),
        fits(b, pos, u.node@),
        u.node.weighted(),
    ensures
        mid_ok(b, p2, op, gs.push(norm(u.node@)), mid.push(u), n),
        chained(b, p2, op, gs.push(norm(u.node@))),
        at(p2, gs.push(norm(u.node@)), gs.len() as int + 1) == pos + sn(u.node@) + 1,
{
    let f = norm(u.node@);
    let hs = gs.push(f);
    let g = gs.len() as int;
    lemma_chain_rbp(op);
    lemma_parse(b, pos, rbp_of(op) as int);
    assert(!is_bin(u.node@, op)) by {
        if is_bin(u.node@, op) {
            assert(is_chain_of(f, op));
        }
    }
    if g == 0 {
        lemma_chained_one(b, p2, op, f);
        assert(hs =~= seq![f]);
        assert(lt(hs, 0) == 0);
        assert(lt(hs, 1) == nt(f) + 1);
    } else {
        assert(parses(b, pos, rbp_of(op) as int, f)) by {
            reveal(parses);
        }
        lemma_chained_push(b, p2, op, gs, f);
    }
    let vs = mid.push(u);
    assert forall|k: int| 0 <= k < vs.len() implies {
        &&& (#[trigger] vs[k]).start_byte == b[at(p2, hs, n + k)].start
        &&& norm(vs[k].node@) == hs[n + k]
        &&& fits(b, at(p2, hs, n + k), vs[k].node@)
        &&& vs[k].node.weighted()
        &&& !is_bin(vs[k].node@, op)
    } by {
        lemma_lt_prefix(hs, gs, n + k);
        assert(at(p2, hs, n + k) == at(p2, gs, n + k));
        if k < mid.len() {
            assert(vs[k] == mid[k]);
            assert(hs[n + k] == gs[n + k]);
        }
    }
}

/// The operands of a chain of `op` from token `pos` on that start before byte
/// `mid_end`, the token after them, and whether an operator was taken last;
/// none if one does not parse.
pub open spec fn middle(b: Seq<Tok>, op: TokenKind, pos: int, mid_end: int) -> Option<
    (Seq<Form>, int, bool),
>
    decreases b.len() - pos,
{
    if pos < 0 || pos >= b.len() || b[pos].start >= mid_end {
        Some((Seq::empty(), pos, true))
    } else {
        match parse_at(b, pos, rbp_of(op) as int) {
            Out::Done(f, z) => if pos <= z < b.len() && b[z].kind == op {
                with_operands(seq![f], middle(b, op, z + 1, mid_end))
            } else {
                Some((seq![f], z, false))
            },
            Out::Fail(_) => None,
        }
    }
}

/// Operands before others.
pub open spec fn with_operands(fs: Seq<Form>, rest: Option<(Seq<Form>, int, bool)>) -> Option<
    (Seq<Form>, int, bool),
> {
    match rest {
        Some((gs, z, connected)) => Some((fs + gs, z, connected)),
        None => None,
    }
}

proof fn lemma_with_operands(fs: Seq<Form>, f: Form, rest: Option<(Seq<Form>, int, bool)>)
    ensures
        with_operands(fs, with_operands(seq![f], rest)) == with_operands(fs.push(f), rest),
{
    if let Some((gs, z, connected)) = rest {
        assert(fs + (seq![f] + gs) =~= fs.push(f) + gs);
    }
}

impl<'a> Parser<'a> {
    /// Parse operands of a chain of `op` while they start before byte
    /// `mid_end`. Also says whether an operator was consumed last.
    #[verifier::rlimit(60)]
    fn reparse_middle(
        &mut self,
        op: TokenKind,
        mid_end: u32,
        Ghost(p2): Ghost<int>,
        Ghost(ls): Ghost<Seq<Form>>,
    ) -> (r: Option<(Vec<ChainOperand>, bool, Ghost<Seq<Form>>)>)
        requires
            old(self).inv(),
            !old(self).tracking,
            chain_kind(op),
            0 <= p2,
            between(old(self).toks(), p2, op, ls, old(self).pos as int, true),
        ensures
            final(self).inv(),
            final(self).same(old(self)),
            final(self).stack@ == old(self).stack@,
            match r {
                Some((_, connected, gs)) => middle(
                    old(self).toks(),
                    op,
                    old(self).pos as int,
                    mid_end as int,
                ) == Some((gs@.skip(ls.len() as int), final(self).pos as int, connected)),
                None => middle(old(self).toks(), op, old(self).pos as int, mid_end as int) is None,
            },
            r is Some ==> final(self).stats == old(self).world().counted_middle(
                op,
                old(self).pos as int,
                mid_end as int,
                old(self).stats,
            ),
            r matches Some((mid, connected, gs)) ==> {
                &&& mid_ok(old(self).toks(), p2, op, gs@, mid@, ls.len() as int)
                &&& between(old(self).toks(), p2, op, gs@, final(self).pos as int, connected)
                &&& gs@.take(ls.len() as int) == ls
                &&& all_minted(
                    old(self).cached(),
                    mid@,
                    old(self).ids.next,
                    final(self).ids.next,
                )
                &&& carried(
                    mid@,
                    old(self).world().kept_middle(op, old(self).pos as int, mid_end as int),
                    old(self).even(),
                )
            },
        decreases old(self).tokens@.len() - old(self).pos, room(lbp_of(op) as int), 5int,
    {
        let ghost b = self.toks();
        let ghost n = ls.len() as int;
        let ghost mut gs = ls;
        let mut mid: Vec<ChainOperand> = Vec::new();
        let mut connected: bool = true;
        let mut more: bool = self.peek().start < mid_end;
        proof {
            lemma_lex_toks(self.src.spec_bytes());
            lemma_chain_rbp(op);
            assert(gs.take(n) =~= ls);
            lemma_all_none(self.cached(), self.ids.next, self.ids.next);
            assert(mid@ =~= Seq::empty());
            let rest = middle(b, op, self.pos as int, mid_end as int);
            if let Some((hs, z, c)) = rest {
                assert(gs.skip(n) + hs =~= hs);
            }
            assert(with_operands(gs.skip(n), rest) == rest);
        }
        let ghost whole = middle(b, op, self.pos as int, mid_end as int);
        while more
            invariant
                self.inv(),
                self.same(old(self)),
                self.stack@ == old(self).stack@,
                !self.tracking,
                b == self.toks(),
                toks_ok(b),
                chain_kind(op),
                0 <= p2,
                n == ls.len(),
                rbp_of(op) == lbp_of(op),
                0 < lbp_of(op) < 100,
                mid_ok(b, p2, op, gs, mid@, n),
                between(b, p2, op, gs, self.pos as int, connected),
                more ==> connected,
                connected ==> more == (b[self.pos as int].start < mid_end),
                whole == with_operands(
                    gs.skip(n),
                    if connected {
                        middle(b, op, self.pos as int, mid_end as int)
                    } else {
                        Some((Seq::empty(), self.pos as int, false))
                    },
                ),
                whole == middle(
                    old(self).toks(),
                    op,
                    old(self).pos as int,
                    mid_end as int,
                ),
                gs.take(n) == ls,
                all_minted(self.cached(), mid@, old(self).ids.next, self.ids.next),
                old(self).pos <= self.pos,
                self.even() ==> operands_levelled(mid@),
                old(self).world() == self.world(),
                self.world().kept_middle(op, old(self).pos as int, mid_end as int).subset_of(
                    among(mid@, 0, mid@.len() as int).union(
                        if connected {
                            self.world().kept_middle(op, self.pos as int, mid_end as int)
                        } else {
                            Set::empty()
                        },
                    ),
                ),
                old(self).world().counted_middle(
                    op,
                    old(self).pos as int,
                    mid_end as int,
                    old(self).stats,
                ) == (if connected {
                    self.world().counted_middle(op, self.pos as int, mid_end as int, self.stats)
                } else {
                    self.stats
                }),
            decreases self.tokens@.len() - self.pos,
        {
            let ghost pos0 = self.pos as int;
            let ghost n0 = self.ids.next;
            let ghost mid0 = mid@;
            proof {
                self.world().lemma_counted_middle(op, pos0, mid_end as int, self.stats);
                self.world().lemma_kept_middle(op, pos0, mid_end as int);
            }
            let start_byte: u32 = self.peek().start;
            let node = match self.parse_expr(rbp(op)) {
                Ok(v) => v,
                Err(_) => {
                    return None;
                },
            };
            let u = ChainOperand { start_byte, node };
            proof {
                let f = norm(u.node@);
                lemma_among_push(mid0, u, 0);
                lemma_all_push(self.cached(), mid0, u, old(self).ids.next, n0, self.ids.next);
                lemma_parse(b, pos0, rbp_of(op) as int);
                lemma_mid_push(b, p2, op, gs, mid@, n, pos0, u);
                assert(gs.push(f).take(n) =~= gs.take(n));
                assert(gs.push(f).skip(n) =~= gs.skip(n).push(f));
                lemma_with_operands(
                    gs.skip(n),
                    f,
                    middle(b, op, self.pos + 1, mid_end as int),
                );
                assert(gs.skip(n) + seq![f] =~= gs.push(f).skip(n) + Seq::<Form>::empty());
                gs = gs.push(f);
            }
            mid.push(u);
            if self.peek().kind == op {
                let _ = self.advance();
                more = self.peek().start < mid_end;
            } else {
                connected = false;
                more = false;
            }
        }
        proof {
            assert(gs.skip(n) + Seq::<Form>::empty() =~= gs.skip(n));
            self.world().lemma_counted_middle(op, self.pos as int, mid_end as int, self.stats);
            self.world().lemma_kept_middle(op, self.pos as int, mid_end as int);
            reveal(carried);
        }
        Some((mid, connected, Ghost(gs)))
    }
}

/// The first `x` operands of `fs` are the first of `hs`, and those from `y`
/// on are the ones from `g` on; their tokens recur in `b`.
#[verifier::opaque]
pub open spec fn kept(
    a: Seq<Tok>,
    b: Seq<Tok>,
    p: int,
    p2: int,
    op: TokenKind,
    fs: Seq<Form>,
    hs: Seq<Form>,
    x: int,
    y: int,
    g: int,
    d2: int,
    e: int,
) -> bool {
    let n = fs.len() as int;
    let d = p2 - p;
    &&& chain_place(a, p, op, fs)
    &&& chain_place(b, p2, op, hs)
    &&& 0 <= x <= y <= n
    &&& x < n
    &&& x <= g
    &&& hs.len() == g + (n - y)
    &&& hs.take(x) == fs.take(x)
    &&& hs.subrange(g, hs.len() as int) == fs.subrange(y, n)
    &&& x > 0 ==> {
        &&& forall|i: int| 0 <= i <= x ==> at(p2, hs, i) == #[trigger] at(p, fs, i) + d
        &&& forall|i: int| p <= i < at(p, fs, x) - 1 ==> same_tok(#[trigger] a[i], b[i + d], 0)
        &&& a[at(p, fs, x) - 1].kind == op
        &&& b[at(p, fs, x) - 1 + d].kind == op
        &&& at(p, fs, x) - 1 + d < b.len()
    }
    &&& y < n ==> {
        &&& forall|i: int| y <= i <= n ==> at(p2, hs, g + (i - y)) == #[trigger] at(p, fs, i) + d2
        &&& b.len() == a.len() + d2
        &&& forall|i: int| at(p, fs, y) <= i < a.len() ==> same_tok(#[trigger] a[i], b[i + d2], e)
    }
}

/// A unit before the edit is kept.
proof fn lemma_kept_left(
    a: Seq<Tok>,
    b: Seq<Tok>,
    p: int,
    p2: int,
    op: TokenKind,
    fs: Seq<Form>,
    hs: Seq<Form>,
    x: int,
    y: int,
    g: int,
    d2: int,
    e: int,
    u: ChainOperand,
    i: int,
)
    requires
        kept(a, b, p, p2, op, fs, hs, x, y, g, d2, e),
        unit_ok(a, p, op, fs, u, i),
        bands_ok(a, at(p, fs, i), u.node@),
        i + flat(u.node@, op).len() <= x,
    ensures
        unit_ok(b, p2, op, hs, u, i),
{
    reveal(kept);
    let j = i + flat(u.node@, op).len();
    let d = p2 - p;
    assert(x > 0);
    lemma_at_order(a, p, fs, 0, i);
    lemma_at_order(a, p, fs, i, j);
    lemma_at_order(a, p, fs, j, x);
    lemma_at_order(b, p2, hs, 0, i);
    assert(at(p, fs, 0) == p);
    assert(hs.subrange(i, j) =~= hs.take(x).subrange(i, j));
    assert(fs.subrange(i, j) =~= fs.take(x).subrange(i, j));
    assert(at(p2, hs, i) == at(p, fs, i) + d);
    if j < x {
        assert(same_tok(a[at(p, fs, j) - 1], b[at(p, fs, j) - 1 + d], 0));
    }
    lemma_part_moves(a, b, p, p2, op, fs, hs, u.node, i, j, i, d, 0);
    assert(same_tok(a[at(p, fs, i)], b[at(p, fs, i) + d], 0));
}

/// A unit after the edit is kept.
proof fn lemma_kept_right(
    a: Seq<Tok>,
    b: Seq<Tok>,
    p: int,
    p2: int,
    op: TokenKind,
    fs: Seq<Form>,
    hs: Seq<Form>,
    x: int,
    y: int,
    g: int,
    d2: int,
    e: int,
    u: ChainOperand,
    v: ChainOperand,
    i: int,
)
    requires
        kept(a, b, p, p2, op, fs, hs, x, y, g, d2, e),
        unit_ok(a, p, op, fs, u, i),
        bands_ok(a, at(p, fs, i), u.node@),
        y <= i,
        v.node == u.node,
        v.start_byte == u.start_byte + e,
    ensures
        unit_ok(b, p2, op, hs, v, g + (i - y)),
{
    reveal(kept);
    let j = i + flat(u.node@, op).len();
    let n = fs.len() as int;
    let i2 = g + (i - y);
    lemma_flat_nonempty(u.node@, op);
    lemma_at_order(a, p, fs, 0, y);
    lemma_at_order(a, p, fs, y, i);
    lemma_at_order(a, p, fs, i, j);
    lemma_at_order(b, p2, hs, 0, i2);
    assert(hs.subrange(i2, i2 + (j - i)) =~= hs.subrange(g, hs.len() as int).subrange(i - y, j - y));
    assert(fs.subrange(i, j) =~= fs.subrange(y, n).subrange(i - y, j - y));
    assert(at(p2, hs, i2) == at(p, fs, i) + d2);
    assert(same_tok(a[at(p, fs, j) - 1], b[at(p, fs, j) - 1 + d2], e));
    lemma_part_moves(a, b, p, p2, op, fs, hs, u.node, i, j, i2, d2, e);
    assert(same_tok(a[at(p, fs, i)], b[at(p, fs, i) + d2], e));
}

/// A fresh operand is a unit.
proof fn lemma_mid_unit(
    b: Seq<Tok>,
    p2: int,
    op: TokenKind,
    gs: Seq<Form>,
    hs: Seq<Form>,
    mid: Seq<ChainOperand>,
    n: int,
    k: int,
)
    requires
        mid_ok(b, p2, op, gs, mid, n),
        0 <= k < mid.len(),
        0 <= n,
        gs.len() <= hs.len(),
        hs.take(gs.len() as int) == gs,
    ensures
        unit_ok(b, p2, op, hs, mid[k], n + k),
        flat(mid[k].node@, op).len() == 1,
{
    let u = mid[k];
    lemma_flat_nonempty(u.node@, op);
    assert(hs[n + k] == hs.take(gs.len() as int)[n + k]);
    assert forall|i: int| 0 <= i < n + k implies hs[i] == gs[i] by {
        assert(hs[i] == hs.take(gs.len() as int)[i]);
    }
    lemma_lt_prefix(hs, gs, n + k);
    assert(at(p2, hs, n + k) == at(p2, gs, n + k));
    assert(hs.subrange(n + k, n + k + 1) =~= seq![gs[n + k]]);
}

/// The units of the spliced chain, in order: those kept before the edit, the
/// fresh operands, those kept after it.
#[verifier::rlimit(60)]
fn gather(
    left: &Vec<ChainOperand>,
    mid: &Vec<ChainOperand>,
    right: &Vec<ChainOperand>,
    old_edit_end: u32,
    new_edit_end: u32,
    Ghost(a): Ghost<Seq<Tok>>,
    Ghost(b): Ghost<Seq<Tok>>,
    Ghost(p): Ghost<int>,
    Ghost(p2): Ghost<int>,
    Ghost(op): Ghost<TokenKind>,
    Ghost(fs): Ghost<Seq<Form>>,
    Ghost(gs): Ghost<Seq<Form>>,
    Ghost(hs): Ghost<Seq<Form>>,
    Ghost(x): Ghost<int>,
    Ghost(y): Ghost<int>,
    Ghost(d2): Ghost<int>,
) -> (r: Vec<ChainOperand>)
    requires
        kept(a, b, p, p2, op, fs, hs, x, y, gs.len() as int, d2, new_edit_end - old_edit_end),
        gs.len() <= hs.len(),
        hs.take(gs.len() as int) == gs,
        0 <= x,
        covers(a, p, op, fs, left@, 0, x),
        banded(a, p, op, fs, left@, 0),
        mid_ok(b, p2, op, gs, mid@, x),
        covers(a, p, op, fs, right@, y, fs.len() as int),
        banded(a, p, op, fs, right@, y),
        forall|k: int| 0 <= k < right@.len() ==> (#[trigger] right@[k]).start_byte >= old_edit_end,
        forall|k: int|
            0 <= k < right@.len() ==> (#[trigger] right@[k]).start_byte - old_edit_end + new_edit_end
                <= u32::MAX,
    ensures
        covers(b, p2, op, hs, r@, 0, hs.len() as int),
        r@.len() == left@.len() + mid@.len() + right@.len(),
        forall|k: int| 0 <= k < left@.len() ==> (#[trigger] r@[k]).node == left@[k].node,
        forall|k: int|
            left@.len() <= k < left@.len() + mid@.len() ==> (#[trigger] r@[k]).node == mid@[k
                - left@.len()].node,
        forall|k: int|
            left@.len() + mid@.len() <= k < r@.len() ==> (#[trigger] r@[k]).node == right@[k
                - left@.len() - mid@.len()].node,
{
    let ghost g = gs.len() as int;
    let ghost e = new_edit_end - old_edit_end;
    let mut units: Vec<ChainOperand> = Vec::new();
    let mut i: usize = 0;
    proof {
        assert(off(units@, op, 0, 0) == 0);
        assert(off(left@, op, 0, 0) == 0);
    }
    while i < left.len()
        invariant
            i <= left@.len(),
            units@.len() == i,
            forall|k: int| 0 <= k < i ==> (#[trigger] units@[k]).node == left@[k].node,
            kept(a, b, p, p2, op, fs, hs, x, y, g, d2, e),
            covers(a, p, op, fs, left@, 0, x),
            banded(a, p, op, fs, left@, 0),
            covers(b, p2, op, hs, units@, 0, off(left@, op, 0, i as int)),
        decreases left@.len() - i,
    {
        let u = ChainOperand { start_byte: left[i].start_byte, node: Arc::clone(&left[i].node) };
        proof {
            let c = off(left@, op, 0, i as int);
            assert(unit_ok(a, p, op, fs, left@[i as int], c));
            assert(cut(left@, op, i + 1) == cut(left@, op, i as int) + flat(left@[i as int].node@, op).len());
            lemma_cut_mono(left@, op, i + 1, left@.len() as int);
            lemma_kept_left(a, b, p, p2, op, fs, hs, x, y, g, d2, e, left@[i as int], c);
            lemma_covers_push(b, p2, op, hs, units@, u, 0, c);
        }
        units.push(u);
        i = i + 1;
    }
    let mut j: usize = 0;
    while j < mid.len()
        invariant
            j <= mid@.len(),
            units@.len() == left@.len() + j,
            forall|k: int| 0 <= k < left@.len() ==> (#[trigger] units@[k]).node == left@[k].node,
            forall|k: int|
                left@.len() <= k < left@.len() + j ==> (#[trigger] units@[k]).node == mid@[k
                    - left@.len()].node,
            0 <= x,
            g == gs.len(),
            g <= hs.len(),
            hs.take(g) == gs,
            mid_ok(b, p2, op, gs, mid@, x),
            covers(b, p2, op, hs, units@, 0, x + j),
        decreases mid@.len() - j,
    {
        let u = ChainOperand { start_byte: mid[j].start_byte, node: Arc::clone(&mid[j].node) };
        proof {
            lemma_mid_unit(b, p2, op, gs, hs, mid@, x, j as int);
            lemma_covers_push(b, p2, op, hs, units@, u, 0, x + j);
        }
        units.push(u);
        j = j + 1;
    }
    let mut k: usize = 0;
    proof {
        assert(off(right@, op, y, 0) == y);
    }
    while k < right.len()
        invariant
            k <= right@.len(),
            units@.len() == left@.len() + mid@.len() + k,
            forall|z: int| 0 <= z < left@.len() ==> (#[trigger] units@[z]).node == left@[z].node,
            forall|z: int|
                left@.len() <= z < left@.len() + mid@.len() ==> (#[trigger] units@[z]).node
                    == mid@[z - left@.len()].node,
            forall|z: int|
                left@.len() + mid@.len() <= z < units@.len() ==> (#[trigger] units@[z]).node
                    == right@[z - left@.len() - mid@.len()].node,
            kept(a, b, p, p2, op, fs, hs, x, y, g, d2, e),
            e == new_edit_end - old_edit_end,
            covers(a, p, op, fs, right@, y, fs.len() as int),
            banded(a, p, op, fs, right@, y),
            covers(b, p2, op, hs, units@, 0, g + (off(right@, op, y, k as int) - y)),
            forall|z: int| 0 <= z < right@.len() ==> (#[trigger] right@[z]).start_byte >= old_edit_end,
            forall|z: int|
                0 <= z < right@.len() ==> (#[trigger] right@[z]).start_byte - old_edit_end
                    + new_edit_end <= u32::MAX,
        decreases right@.len() - k,
    {
        let start_byte: u32 = right[k].start_byte - old_edit_end + new_edit_end;
        let u = ChainOperand { start_byte, node: Arc::clone(&right[k].node) };
        proof {
            let c = off(right@, op, y, k as int);
            assert(unit_ok(a, p, op, fs, right@[k as int], c));
            assert(cut(right@, op, k + 1) == cut(right@, op, k as int) + flat(right@[k as int].node@, op).len());
            lemma_cut_mono(right@, op, 0, k as int);
            lemma_kept_right(a, b, p, p2, op, fs, hs, x, y, g, d2, e, right@[k as int], u, c);
            lemma_covers_push(b, p2, op, hs, units@, u, 0, g + (c - y));
        }
        units.push(u);
        k = k + 1;
    }
    proof {
        reveal(kept);
    }
    units
}

proof fn lemma_cut_mono(us: Seq<ChainOperand>, op: TokenKind, i: int, j: int)
    requires
        0 <= i <= j <= us.len(),
    ensures
        cut(us, op, i) <= cut(us, op, j),
        i < j ==> cut(us, op, i) < cut(us, op, j),
    decreases j - i,
{
    if i < j {
        lemma_cut_mono(us, op, i, j - 1);
        lemma_flat_nonempty(us[j - 1].node@, op);
    }
}

/// Where the last of some units ends.
proof fn lemma_units_end(
    a: Seq<Tok>,
    p: int,
    op: TokenKind,
    fs: Seq<Form>,
    us: Seq<ChainOperand>,
    i: int,
    j: int,
)
    requires
        chain_place(a, p, op, fs),
        covers(a, p, op, fs, us, i, j),
    ensures
        us.len() == 0 <==> i == j,
        us.len() > 0 ==> {
            &&& 0 <= i < j <= fs.len()
            &&& us.last().start_byte + us.last().node.width == a[at(p, fs, j) - 2].end
            &&& us[0].start_byte == a[at(p, fs, i)].start
        },
{
    let n = us.len() as int;
    lemma_cut_mono(us, op, 0, n);
    assert(off(us, op, i, 0) == i);
    if n > 0 {
        let c = off(us, op, i, n - 1);
        let u = us[n - 1];
        assert(unit_ok(a, p, op, fs, us[0], off(us, op, i, 0)));
        assert(unit_ok(a, p, op, fs, u, off(us, op, i, n - 1)));
        assert(cut(us, op, n) == cut(us, op, n - 1) + flat(u.node@, op).len());
        lemma_part_tokens(u.node@, op, fs, c, j);
        lemma_at_order(a, p, fs, 0, c);
        lemma_at_order(a, p, fs, c, j);
        assert(u.node.width == a[at(p, fs, j) - 2].end - a[at(p, fs, c)].start);
    }
}

/// Units start where their first operands do.
proof fn lemma_units_start(
    a: Seq<Tok>,
    p: int,
    op: TokenKind,
    fs: Seq<Form>,
    us: Seq<ChainOperand>,
    i: int,
    j: int,
    k: int,
)
    requires
        chain_place(a, p, op, fs),
        0 <= i,
        covers(a, p, op, fs, us, i, j),
        0 <= k < us.len(),
    ensures
        a[at(p, fs, i)].start <= us[k].start_byte <= a[at(p, fs, fs.len() as int) - 2].end,
{
    let c = off(us, op, i, k);
    lemma_cut_mono(us, op, 0, k);
    assert(unit_ok(a, p, op, fs, us[k], off(us, op, i, k)));
    lemma_flat_nonempty(us[k].node@, op);
    lemma_order_bytes(a, p, op, fs, c, i);
    lemma_order_bytes(a, p, op, fs, c, fs.len() as int);
}

/// Nodes in some units.
fn count_units(
    us: &Vec<ChainOperand>,
    Ghost(a): Ghost<Seq<Tok>>,
    Ghost(p): Ghost<int>,
    Ghost(op): Ghost<TokenKind>,
    Ghost(fs): Ghost<Seq<Form>>,
    Ghost(i): Ghost<int>,
    Ghost(j): Ghost<int>,
) -> (r: u32)
    requires
        chain_place(a, p, op, fs),
        covers(a, p, op, fs, us@, i, j),
        banded(a, p, op, fs, us@, i),
    ensures
        r == capped(units_nodes(us@, us@.len() as int)),
{
    let mut total: u32 = 0;
    let mut k: usize = 0;
    while k < us.len()
        invariant
            k <= us@.len(),
            chain_place(a, p, op, fs),
            covers(a, p, op, fs, us@, i, j),
            banded(a, p, op, fs, us@, i),
            total == capped(units_nodes(us@, k as int)),
        decreases us@.len() - k,
    {
        proof {
            let c = off(us@, op, i, k as int);
            assert(unit_ok(a, p, op, fs, us@[k as int], c));
            lemma_count_part(a, p, op, fs, us@[k as int].node, c, c + flat(us@[k as int].node@, op).len());
        }
        total = total.saturating_add(us[k].node.count());
        k = k + 1;
    }
    total
}

/// Number of nodes in the first `k` units.
pub open spec fn units_nodes(us: Seq<ChainOperand>, k: int) -> int
    decreases k,
{
    if 0 < k <= us.len() {
        units_nodes(us, k - 1) + node_count(us[k - 1].node@)
    } else {
        0
    }
}

/// One more unit.
proof fn lemma_units_push(us: Seq<ChainOperand>, u: ChainOperand)
    ensures
        units_nodes(us.push(u), us.len() as int + 1) == units_nodes(us, us.len() as int)
            + node_count(u.node@),
{
    lemma_units_prefix(us.push(u), us, us.len() as int);
}

proof fn lemma_units_prefix(us: Seq<ChainOperand>, vs: Seq<ChainOperand>, k: int)
    requires
        0 <= k <= us.len(),
        k <= vs.len(),
        forall|i: int| 0 <= i < k ==> us[i] == vs[i],
    ensures
        units_nodes(us, k) == units_nodes(vs, k),
    decreases k,
{
    if k > 0 {
        lemma_units_prefix(us, vs, k - 1);
    }
}

pub open spec fn capped(n: int) -> int {
    if n <= u32::MAX {
        n
    } else {
        u32::MAX as int
    }
}

/// `kept` from its parts.
#[verifier::rlimit(60)]
proof fn lemma_kept(
    a: Seq<Tok>,
    b: Seq<Tok>,
    p: int,
    p2: int,
    op: TokenKind,
    fs: Seq<Form>,
    gs: Seq<Form>,
    hs: Seq<Form>,
    x: int,
    y: int,
    d2: int,
    e: int,
)
    requires
        toks_ok(b),
        chain_place(a, p, op, fs),
        chained(a, p, op, fs),
        chained(b, p2, op, gs),
        0 <= x <= y <= fs.len(),
        x < fs.len(),
        1 <= y,
        x <= gs.len(),
        gs.take(x) == fs.take(x),
        hs == gs + fs.subrange(y, fs.len() as int),
        x > 0 ==> {
            &&& forall|i: int|
                0 <= i <= x ==> #[trigger] at(p2, fs.take(x), i) == at(p, fs, i) + (p2 - p)
            &&& forall|i: int|
                p <= i < at(p, fs, x) - 1 ==> same_tok(#[trigger] a[i], b[i + (p2 - p)], 0)
            &&& b[at(p, fs, x) - 1 + (p2 - p)].kind == op
            &&& at(p, fs, x) - 1 + (p2 - p) < b.len()
        },
        y < fs.len() ==> {
            &&& b.len() == a.len() + d2
            &&& forall|i: int| at(p, fs, y) <= i < a.len() ==> same_tok(#[trigger] a[i], b[i + d2], e)
            &&& at(p2, gs, gs.len() as int) == at(p, fs, y) + d2
            &&& b[at(p, fs, y) - 1 + d2].kind == op
        },
    ensures
        kept(a, b, p, p2, op, fs, hs, x, y, gs.len() as int, d2, e),
        chained(b, p2, op, hs),
        chain_place(b, p2, op, hs),
        hs.take(gs.len() as int) == gs,
{
    reveal(kept);
    let n = fs.len() as int;
    let g = gs.len() as int;
    let d = p2 - p;
    if y < n {
        lemma_chained_tail(a, b, p, op, fs, y, n, d2, e, p2, gs);
    } else {
        assert(hs =~= gs);
    }
    lemma_chained_listed(b, p2, op, hs);
    assert(hs.take(g) =~= gs);
    assert(hs.take(x) =~= fs.take(x)) by {
        assert(hs.take(x) =~= gs.take(x));
    }
    assert(hs.subrange(g, hs.len() as int) =~= fs.subrange(y, n));
    if x > 0 {
        assert(a[at(p, fs, x) - 1].kind == op);
        assert forall|i: int| 0 <= i <= x implies at(p2, hs, i) == #[trigger] at(p, fs, i) + d by {
            assert forall|k: int| 0 <= k < i implies hs[k] == fs.take(x)[k] by {
                assert(hs.take(x)[k] == hs[k]);
            }
            lemma_lt_prefix(hs, fs.take(x), i);
            assert(at(p2, fs.take(x), i) == at(p, fs, i) + d);
        }
    }
}

/// After the first `x` operands, which recur in the new stream, comes the
/// operator.
pub open spec fn passes_left(
    b: Seq<Tok>,
    p: int,
    p2: int,
    op: TokenKind,
    fs: Seq<Form>,
    x: int,
) -> bool {
    x == 0 || b[at(p, fs, x) - 1 + (p2 - p)].kind == op
}

/// Between which token and which byte operands of a chain at token `p`, now at
/// token `p2`, are parsed again.
pub open spec fn mid_bounds<'a>(
    reuse: Reuse<'a>,
    p: int,
    p2: int,
    op: TokenKind,
    fs: Seq<Form>,
    c_end: int,
) -> (int, int) {
    let a = lex(reuse.old_src.spec_bytes());
    let n = fs.len() as int;
    let x = left_count(a, p, fs, reuse.edit.start as int, n);
    let y = right_start(a, p, fs, reuse.edit.end as int, 0);
    (
        if x == 0 {
            p2
        } else {
            at(p, fs, x) + (p2 - p)
        },
        if y < n {
            a[at(p, fs, y)].start + reuse.edit.delta()
        } else {
            c_end + reuse.edit.delta()
        },
    )
}

/// The operands of a chain at token `p` outside the edit can be kept, and those
/// between parsed again, from token `p2` on: they lead on to the first operand
/// after the edit, or end where the edit moved the chain's end to.
#[verifier::opaque]
pub open spec fn rejoins<'a>(
    reuse: Reuse<'a>,
    b: Seq<Tok>,
    p: int,
    p2: int,
    op: TokenKind,
    fs: Seq<Form>,
    c_end: int,
) -> bool {
    let a = lex(reuse.old_src.spec_bytes());
    let n = fs.len() as int;
    let x = left_count(a, p, fs, reuse.edit.start as int, n);
    let y = right_start(a, p, fs, reuse.edit.end as int, 0);
    let start = if x == 0 {
        p2
    } else {
        at(p, fs, x) + (p2 - p)
    };
    let mid_end = if y < n {
        a[at(p, fs, y)].start + reuse.edit.delta()
    } else {
        c_end + reuse.edit.delta()
    };
    &&& passes_left(b, p, p2, op, fs, x)
    &&& middle(b, op, start, mid_end) matches Some((mid, z, connected)) && {
        &&& x > 0 || mid.len() > 0
        &&& x + mid.len() + (n - y) >= 2
        &&& if y < n {
            connected && b[z].start == mid_end
        } else {
            !connected && b[z - 1].end == mid_end
        }
    }
}

/// The cached chain `cand` at byte `start` and token `p`, which the edit falls
/// strictly inside, can be put together again from the operands outside the
/// edit and those parsed again between.
pub open spec fn splices_general<'a>(
    reuse: Reuse<'a>,
    b: Seq<Tok>,
    pos: int,
    cand: Arc<Node>,
    start: int,
    p: int,
) -> bool {
    chain_edited(reuse, *cand, start) matches Some(op) && units_recorded(
        reuse.cache.spans->0,
        cand,
        start,
        start + cand.width,
        reuse.edit.start as int,
        reuse.edit.end as int,
        op,
    ) && rejoins(reuse, b, p, pos, op, flat(cand@, op), start + cand.width)
}

/// The trees of some units.
pub open spec fn nodes_in(us: Seq<ChainOperand>) -> Seq<Arc<Node>> {
    Seq::new(us.len(), |i: int| us[i].node)
}

/// Units before an edit, `m` operands parsed again, and units after it.
pub open spec fn joint(ls: Seq<Arc<Node>>, m: int, rs: Seq<Arc<Node>>, op: TokenKind) -> Seq<Spine> {
    Seq::new(
        (ls.len() + m + rs.len()) as nat,
        |k: int|
            if k < ls.len() {
                spine(ls[k], op)
            } else if k < ls.len() + m {
                Spine::New(k - ls.len())
            } else {
                spine(rs[k - ls.len() - m], op)
            },
    )
}

/// They are put together one after the other, each part being balanced.
pub open spec fn rejoined(ls: Seq<Arc<Node>>, m: int, rs: Seq<Arc<Node>>, op: TokenKind) -> Spine {
    concat_upto(joint(ls, m, rs, op), ls.len() + m + rs.len())
}

/// All of `kept` stands in the operands `mid`; their chains are balanced if
/// `even`.
#[verifier::opaque]
pub open spec fn carried(mid: Seq<ChainOperand>, kept: Set<Node>, even: bool) -> bool {
    &&& kept.subset_of(among(mid, 0, mid.len() as int))
    &&& even ==> operands_levelled(mid)
}

/// `n` is the chain tree `cand` at `[s, e)`, put together again from its units
/// outside the edit, as they are, and `m` operands parsed again between them, in
/// which all of `kept` stands. It is as balanced as `cand`, and so are its
/// operands if `even`.
#[verifier::opaque]
pub open spec fn put_together(
    n: Arc<Node>,
    cand: Arc<Node>,
    s: int,
    e: int,
    e_lo: int,
    e_hi: int,
    op: TokenKind,
    m: int,
    kept: Set<Node>,
    even: bool,
) -> bool {
    let ls = side_units(cand, s, e, e_lo, e_hi, op, true);
    let rs = side_units(cand, s, e, e_lo, e_hi, op, false);
    let whole = rejoined(ls, m, rs, op);
    &&& exists|news: Seq<Arc<Node>>| news.len() == m && #[trigger] grown(n, whole, op, news)
    &&& operands_in(ls + rs, op).union(held(whole)).union(kept).subset_of(subtrees(&*n))
    &&& level(cand@, op) ==> level(n@, op)
    &&& even && levelled(cand@) ==> levelled(n@)
}

proof fn lemma_put_together(
    n: Arc<Node>,
    cand: Arc<Node>,
    s: int,
    e: int,
    e_lo: int,
    e_hi: int,
    op: TokenKind,
    mid: Seq<ChainOperand>,
    kept: Set<Node>,
    even: bool,
)
    requires
        chain_kind(op),
        ({
            let ls = side_units(cand, s, e, e_lo, e_hi, op, true);
            let rs = side_units(cand, s, e, e_lo, e_hi, op, false);
            &&& grown(n, rejoined(ls, mid.len() as int, rs, op), op, nodes_in(mid))
            &&& ls.len() + mid.len() + rs.len() >= 1
        }),
        carried(mid, kept, even),
    ensures
        put_together(n, cand, s, e, e_lo, e_hi, op, mid.len() as int, kept, even),
{
    reveal(put_together);
    reveal(carried);
    let ls = side_units(cand, s, e, e_lo, e_hi, op, true);
    let rs = side_units(cand, s, e, e_lo, e_hi, op, false);
    let news = nodes_in(mid);
    assert(news.len() == mid.len());
    lemma_units_level(cand, s, e, e_lo, e_hi, op, true);
    lemma_units_level(cand, s, e, e_lo, e_hi, op, false);
    lemma_rejoined(n, ls, rs, op, news);
    law_operands_stand(n, ls, rs, op, news);
    if operands_levelled(mid) {
        assert forall|k: int| 0 <= k < news.len() implies levelled((#[trigger] news[k])@) by {
            assert(levelled(mid[k].node@));
        }
    }
    assert forall|c: Node| among(mid, 0, mid.len() as int).contains(c) implies subtrees(
        &*n,
    ).contains(c) by {
        reveal(among);
        reveal(subtrees);
        let k = choose|k: int|
            0 <= k < mid.len() && 0 <= k < mid.len() && within(&*(#[trigger] mid[k]).node, &c);
        assert(subtrees(&*news[k]).contains(c));
    }
}

proof fn lemma_rejoined_new(ls: Seq<Arc<Node>>, m: int, rs: Seq<Arc<Node>>, op: TokenKind)
    requires
        0 <= m,
        ls.len() + m + rs.len() >= 2,
    ensures
        rejoined(ls, m, rs, op) matches Spine::Fork(None, _, _),
{
    let ss = joint(ls, m, rs, op);
    let k = ss.len() as int;
    lemma_concat_new(concat_upto(ss, k - 1), ss[k - 1]);
}

/// Join the units of the spliced chain, at least two of them, into one tree.
fn join_units<'a>(
    ids: &mut IdSource,
    op: TokenKind,
    left: &Vec<ChainOperand>,
    mid: &Vec<ChainOperand>,
    right: &Vec<ChainOperand>,
    old_edit_end: u32,
    new_edit_end: u32,
    Ghost(a): Ghost<Seq<Tok>>,
    Ghost(b): Ghost<Seq<Tok>>,
    Ghost(p): Ghost<int>,
    Ghost(p2): Ghost<int>,
    Ghost(fs): Ghost<Seq<Form>>,
    Ghost(gs): Ghost<Seq<Form>>,
    Ghost(hs): Ghost<Seq<Form>>,
    Ghost(x): Ghost<int>,
    Ghost(y): Ghost<int>,
    Ghost(d2): Ghost<int>,
    Ghost(cache): Ghost<Option<&'a ReuseCache>>,
    Ghost(low): Ghost<u64>,
) -> (r: Option<Arc<Node>>)
    requires
        chain_place(b, p2, op, hs),
        kept(a, b, p, p2, op, fs, hs, x, y, gs.len() as int, d2, new_edit_end - old_edit_end),
        gs.len() <= hs.len(),
        hs.take(gs.len() as int) == gs,
        0 <= x,
        covers(a, p, op, fs, left@, 0, x),
        banded(a, p, op, fs, left@, 0),
        mid_ok(b, p2, op, gs, mid@, x),
        covers(a, p, op, fs, right@, y, fs.len() as int),
        banded(a, p, op, fs, right@, y),
        forall|k: int| 0 <= k < right@.len() ==> (#[trigger] right@[k]).start_byte >= old_edit_end,
        forall|k: int|
            0 <= k < right@.len() ==> (#[trigger] right@[k]).start_byte - old_edit_end + new_edit_end
                <= u32::MAX,
        low <= old(ids).next,
        all_cached(cache, left@),
        all_cached(cache, right@),
        all_minted(cache, mid@, low, old(ids).next),
    ensures
        old(ids).next <= final(ids).next,
        old(ids).next == 0 ==> final(ids).next == 0,
        r is None <==> left@.len() + mid@.len() + right@.len() < 2,
        r matches Some(n) ==> {
            &&& built(cache, &*n, low, final(ids).next)
            &&& grown(
                n,
                rejoined(nodes_in(left@), mid@.len() as int, nodes_in(right@), op),
                op,
                nodes_in(mid@),
            )
            &&& part_ok(b, p2, op, hs, *n, 0, hs.len() as int)
            &&& is_bin(n@, op)
            &&& n.m_spine == lbp_of(op)
        },
{
    let units = gather(
        left,
        mid,
        right,
        old_edit_end,
        new_edit_end,
        Ghost(a),
        Ghost(b),
        Ghost(p),
        Ghost(p2),
        Ghost(op),
        Ghost(fs),
        Ghost(gs),
        Ghost(hs),
        Ghost(x),
        Ghost(y),
        Ghost(d2),
    );
    if units.len() < 2 {
        return None;
    }
    let ghost ss = joint(nodes_in(left@), mid@.len() as int, nodes_in(right@), op);
    let ghost news = nodes_in(mid@);
    proof {
        lemma_gathered(cache, left@, mid@, right@, units@, low, ids.next);
        assert forall|k: int| 0 <= k < units@.len() implies grown(
            (#[trigger] units@[k]).node,
            ss[k],
            op,
            news,
        ) by {
            lemma_own_spine(units@[k].node, op, news);
            if left@.len() <= k < left@.len() + mid@.len() {
                assert(mid@[k - left@.len()].node == news[k - left@.len()]);
            }
        }
    }
    Some(
        join_all(
            ids,
            op,
            &units,
            lbp(op),
            Ghost(b),
            Ghost(p2),
            Ghost(hs),
            Ghost(cache),
            Ghost(low),
            Ghost(ss),
            Ghost(news),
        ),
    )
}

impl<'a> Parser<'a> {
    /// Move past the kept units before the edit and the operator after them.
    #[verifier::rlimit(60)]
    fn pass_left_units(
        &mut self,
        reuse: Reuse<'a>,
        left: &Vec<ChainOperand>,
        op: TokenKind,
        Ghost(p): Ghost<int>,
        Ghost(fs): Ghost<Seq<Form>>,
        Ghost(x): Ghost<int>,
    ) -> (r: bool)
        requires
            old(self).inv(),
            old(self).reuse == Some(reuse),
            chain_place(lex(reuse.old_src.spec_bytes()), p, op, fs),
            chained(lex(reuse.old_src.spec_bytes()), p, op, fs),
            at(p, fs, 0) == p,
            0 <= x < fs.len(),
            covers(lex(reuse.old_src.spec_bytes()), p, op, fs, left@, 0, x),
            x > 0 ==> ends_before(
                lex(reuse.old_src.spec_bytes()),
                p,
                fs,
                x - 1,
                reuse.edit.start as int,
            ),
            old(self).toks()[old(self).pos as int].start == lex(reuse.old_src.spec_bytes())[p].start,
        ensures
            final(self).inv(),
            final(self).ids == old(self).ids,
            final(self).same(old(self)),
            final(self).stack@ == old(self).stack@,
            final(self).stats == old(self).stats,
            r == passes_left(
                old(self).toks(),
                p,
                old(self).pos as int,
                op,
                fs,
                x,
            ),
            r ==> {
                let a = lex(reuse.old_src.spec_bytes());
                let b = old(self).toks();
                let p2 = old(self).pos as int;
                &&& old(self).pos <= final(self).pos
                &&& between(b, p2, op, fs.take(x), final(self).pos as int, true)
                &&& x > 0 ==> {
                    &&& forall|i: int|
                        0 <= i <= x ==> #[trigger] at(p2, fs.take(x), i) == at(p, fs, i) + (p2 - p)
                    &&& forall|i: int|
                        p <= i < at(p, fs, x) - 1 ==> same_tok(#[trigger] a[i], b[i + (p2 - p)], 0)
                    &&& b[at(p, fs, x) - 1 + (p2 - p)].kind == op
                    &&& at(p, fs, x) - 1 + (p2 - p) < b.len()
                }
            },
    {
        let ghost a = lex(reuse.old_src.spec_bytes());
        let ghost b = self.toks();
        let ghost p2 = self.pos as int;
        let ghost d = p2 - p;
        proof {
            lemma_units_end(a, p, op, fs, left@, 0, x);
        }
        if left.len() == 0 {
            proof {
                assert(fs.take(x).len() == 0);
            }
            return true;
        }
        proof {
            lemma_at_order(a, p, fs, 0, x);
            lemma_lex_bound(reuse.old_src.spec_bytes(), at(p, fs, x) - 2);
            lemma_lex_toks(self.src.spec_bytes());
        }
        proof {
            let y = at(p, fs, x) - 1;
            assert(a[y - 1].end <= a[y].start);
            lemma_before_edit(*self, reuse, p, y, a[y - 1].end);
            assert(same_tok(a[y - 1], b[y - 1 + d], 0));
            assert(b[y - 1 + d].end <= b[y + d].start);
        }
        let unit_last = &left[left.len() - 1];
        let mid_start: u32 = unit_last.start_byte + unit_last.node.width;
        let start_tok: usize = match self.find_token_index(mid_start) {
            Some(t) => t,
            None => {
                return false;
            },
        };
        proof {
            let y = at(p, fs, x) - 1;
            lemma_end_tok(b, p2, y + d, start_tok as int, mid_start as int);
        }
        self.pos = start_tok;
        if self.peek().kind != op {
            return false;
        }
        let _ = self.advance();
        proof {
            lemma_chained_prefix(a, b, p, op, fs, x, d, 0);
            assert(at(p2, fs.take(x), x) == at(p, fs, x) + d);
        }
        true
    }

    /// Put a joined chain in its place, and pass over it, if it ends where the
    /// edit moved the old chain's end to.
    #[verifier::rlimit(60)]
    fn place_joined(
        &mut self,
        reuse: Reuse<'a>,
        result: Arc<Node>,
        c_start: u32,
        chain_end_new: u32,
        min_prec: u32,
        Ghost(p): Ghost<int>,
        Ghost(op): Ghost<TokenKind>,
        Ghost(fs): Ghost<Seq<Form>>,
        Ghost(g): Ghost<int>,
        Ghost(hs): Ghost<Seq<Form>>,
        Ghost(x): Ghost<int>,
        Ghost(y): Ghost<int>,
        Ghost(d2): Ghost<int>,
        Ghost(stop): Ghost<int>,
        Ghost(low): Ghost<u64>,
    ) -> (r: Option<Arc<Node>>)
        requires
            old(self).inv(),
            old(self).reuse == Some(reuse),
            ({
                let a = lex(reuse.old_src.spec_bytes());
                let b = old(self).toks();
                let p2 = old(self).pos as int;
                let n = fs.len() as int;
                let c_end = a[at(p, fs, n) - 2].end;
                &&& kept(a, b, p, p2, op, fs, hs, x, y, g, d2, reuse.edit.delta())
                &&& chain_place(a, p, op, fs)
                &&& chain_place(b, p2, op, hs)
                &&& chained(b, p2, op, hs)
                &&& fs.len() >= 2
                &&& lb(a, at(p, fs, n) - 1) == stop
                &&& reuse.edit.end <= c_end
                &&& chain_end_new == c_end + reuse.edit.delta()
                &&& part_ok(b, p2, op, hs, *result, 0, hs.len() as int)
                &&& c_start == b[p2].start
                &&& c_start <= chain_end_new
            }),
            is_bin(result@, op),
            result.m_spine == lbp_of(op),
            0 <= stop <= min_prec < lbp_of(op),
            built(old(self).cached(), &*result, low, old(self).ids.next),
        ensures
            final(self).inv(),
            final(self).same(old(self)),
            final(self).ids == old(self).ids,
            final(self).stack@ == old(self).stack@,
            final(self).stats == old(self).stats,
            r is Some <==> result.width == chain_end_new - c_start,
            match r {
                Some(n) => {
                    &&& parse_at(old(self).toks(), old(self).pos as int, min_prec as int)
                        == Out::Done(norm(n@), final(self).pos as int)
                    &&& fits(old(self).toks(), old(self).pos as int, n@)
                    &&& n.weighted()
                    &&& n.width == chain_end_new - c_start
                    &&& minted(old(self).cached(), &*n, low, final(self).ids.next)
                    &&& same_kids(&*result, &*n)
                    &&& is_bin(n@, op)
                },
                None => final(self).pos == old(self).pos,
            },
            ({
                let b = old(self).toks();
                let k = at(old(self).pos as int, hs, hs.len() as int) - 1;
                &&& old(self).pos < k < b.len()
                &&& result.width == b[k - 1].end - b[old(self).pos as int].start
                &&& y < fs.len() ==> b[k - 1].end == chain_end_new
            }),
    {
        proof {
            lemma_joined_end(
                lex(reuse.old_src.spec_bytes()),
                self.toks(),
                p,
                self.pos as int,
                op,
                fs,
                hs,
                x,
                y,
                g,
                d2,
                reuse.edit.delta(),
                result,
            );
        }
        if result.width != chain_end_new - c_start {
            return None;
        }
        let after: usize = match self.find_token_index(chain_end_new) {
            Some(t) => t,
            None => {
                return None;
            },
        };
        let stop_new: u32 = lbp(self.tokens[after].kind);
        let done = stamp_stop(Arc::clone(&result), stop_new);
        proof {
            lemma_rebuilt(self.cached(), &*result, &*done, low, self.ids.next);
            lemma_general_done(
                *self,
                reuse,
                p,
                op,
                fs,
                hs,
                result,
                done,
                stop,
                chain_end_new as int,
                after as int,
                min_prec as int,
            );
        }
        self.pos = after;
        Some(done)
    }

    /// Join the units of the spliced chain and put the result in its place at
    /// token `at_tok`, if there are two of them and it ends where the edit moved
    /// the old chain's end to.
    #[verifier::rlimit(60)]
    fn join_and_place(
        &mut self,
        reuse: Reuse<'a>,
        op: TokenKind,
        left: &Vec<ChainOperand>,
        mid: &Vec<ChainOperand>,
        right: &Vec<ChainOperand>,
        new_e_hi: u32,
        c_start: u32,
        chain_end_new: u32,
        min_prec: u32,
        at_tok: usize,
        Ghost(p): Ghost<int>,
        Ghost(fs): Ghost<Seq<Form>>,
        Ghost(gs): Ghost<Seq<Form>>,
        Ghost(hs): Ghost<Seq<Form>>,
        Ghost(x): Ghost<int>,
        Ghost(y): Ghost<int>,
        Ghost(d2): Ghost<int>,
        Ghost(stop): Ghost<int>,
        Ghost(low): Ghost<u64>,
    ) -> (r: Option<Arc<Node>>)
        requires
            old(self).inv(),
            old(self).reuse == Some(reuse),
            at_tok < old(self).tokens@.len(),
            new_e_hi == reuse.edit.end + reuse.edit.delta(),
            ({
                let a = lex(reuse.old_src.spec_bytes());
                let b = old(self).toks();
                let p2 = at_tok as int;
                let n = fs.len() as int;
                let c_end = a[at(p, fs, n) - 2].end;
                &&& kept(a, b, p, p2, op, fs, hs, x, y, gs.len() as int, d2, reuse.edit.delta())
                &&& chain_place(a, p, op, fs)
                &&& chain_place(b, p2, op, hs)
                &&& chained(b, p2, op, hs)
                &&& fs.len() >= 2
                &&& lb(a, at(p, fs, n) - 1) == stop
                &&& reuse.edit.end <= c_end
                &&& chain_end_new == c_end + reuse.edit.delta()
                &&& c_start == b[p2].start
                &&& c_start <= chain_end_new
                &&& gs.len() <= hs.len()
                &&& hs.take(gs.len() as int) == gs
                &&& 0 <= x
                &&& covers(a, p, op, fs, left@, 0, x)
                &&& banded(a, p, op, fs, left@, 0)
                &&& mid_ok(b, p2, op, gs, mid@, x)
                &&& covers(a, p, op, fs, right@, y, fs.len() as int)
                &&& banded(a, p, op, fs, right@, y)
            }),
            forall|k: int|
                0 <= k < right@.len() ==> (#[trigger] right@[k]).start_byte >= reuse.edit.end
                    && right@[k].start_byte - reuse.edit.end + new_e_hi <= u32::MAX,
            0 <= stop <= min_prec < lbp_of(op),
            low <= old(self).ids.next,
            all_cached(old(self).cached(), left@),
            all_cached(old(self).cached(), right@),
            all_minted(old(self).cached(), mid@, low, old(self).ids.next),
        ensures
            final(self).inv(),
            final(self).same(old(self)),
            final(self).stack@ == old(self).stack@,
            final(self).stats == old(self).stats,
            ({
                let b = old(self).toks();
                let k = at(at_tok as int, hs, hs.len() as int) - 1;
                let many = left@.len() + mid@.len() + right@.len() >= 2;
                &&& many ==> at_tok < k < b.len() && (y < fs.len() ==> b[k - 1].end
                    == chain_end_new)
                &&& r is Some <==> many && b[k - 1].end - b[at_tok as int].start == chain_end_new
                    - c_start
            }),
            match r {
                Some(n) => {
                    &&& parse_at(old(self).toks(), at_tok as int, min_prec as int) == Out::Done(
                        norm(n@),
                        final(self).pos as int,
                    )
                    &&& fits(old(self).toks(), at_tok as int, n@)
                    &&& n.weighted()
                    &&& n.width == chain_end_new - c_start
                    &&& minted(old(self).cached(), &*n, low, final(self).ids.next)
                    &&& grown(
                        n,
                        rejoined(nodes_in(left@), mid@.len() as int, nodes_in(right@), op),
                        op,
                        nodes_in(mid@),
                    )
                },
                None => final(self).pos == at_tok,
            },
    {
        let ghost a = lex(reuse.old_src.spec_bytes());
        let ghost b = self.toks();
        let ghost cache = self.cached();
        let joined = join_units(
            &mut self.ids,
            op,
            left,
            mid,
            right,
            reuse.edit.end,
            new_e_hi,
            Ghost(a),
            Ghost(b),
            Ghost(p),
            Ghost(at_tok as int),
            Ghost(fs),
            Ghost(gs),
            Ghost(hs),
            Ghost(x),
            Ghost(y),
            Ghost(d2),
            Ghost(cache),
            Ghost(low),
        );
        self.pos = at_tok;
        let result = match joined {
            Some(v) => v,
            None => {
                return None;
            },
        };
        let placed = self.place_joined(
            reuse,
            Arc::clone(&result),
            c_start,
            chain_end_new,
            min_prec,
            Ghost(p),
            Ghost(op),
            Ghost(fs),
            Ghost(gs.len() as int),
            Ghost(hs),
            Ghost(x),
            Ghost(y),
            Ghost(d2),
            Ghost(stop),
            Ghost(low),
        );
        proof {
            if placed is Some {
                let n = placed->0;
                lemma_rejoined_new(nodes_in(left@), mid@.len() as int, nodes_in(right@), op);
                lemma_grown_stamped(
                    result,
                    n,
                    rejoined(nodes_in(left@), mid@.len() as int, nodes_in(right@), op),
                    op,
                    nodes_in(mid@),
                );
            }
        }
        placed
    }

    /// Move past the units kept before the edit, and parse operands again up to
    /// byte `mid_end`: up to the first kept unit after the edit, `more` of which
    /// there are, or up to the chain's end.
    #[verifier::rlimit(60)]
    fn units_between(
        &mut self,
        reuse: Reuse<'a>,
        left: &Vec<ChainOperand>,
        op: TokenKind,
        mid_end: u32,
        more: bool,
        Ghost(p): Ghost<int>,
        Ghost(fs): Ghost<Seq<Form>>,
        Ghost(x): Ghost<int>,
    ) -> (r: Option<(Vec<ChainOperand>, Ghost<Seq<Form>>)>)
        requires
            old(self).inv(),
            !old(self).tracking,
            old(self).reuse == Some(reuse),
            chain_kind(op),
            chain_place(lex(reuse.old_src.spec_bytes()), p, op, fs),
            chained(lex(reuse.old_src.spec_bytes()), p, op, fs),
            at(p, fs, 0) == p,
            0 <= x < fs.len(),
            covers(lex(reuse.old_src.spec_bytes()), p, op, fs, left@, 0, x),
            x > 0 ==> ends_before(
                lex(reuse.old_src.spec_bytes()),
                p,
                fs,
                x - 1,
                reuse.edit.start as int,
            ),
            old(self).toks()[old(self).pos as int].start == lex(reuse.old_src.spec_bytes())[p].start,
        ensures
            final(self).inv(),
            final(self).same(old(self)),
            final(self).stack@ == old(self).stack@,
            ({
                let a = lex(reuse.old_src.spec_bytes());
                let b = old(self).toks();
                let p2 = old(self).pos as int;
                let from = if x == 0 {
                    p2
                } else {
                    at(p, fs, x) + (p2 - p)
                };
                let rest = middle(b, op, from, mid_end as int);
                match r {
                    Some((mid, ggs)) => {
                        let gs = ggs@;
                        let z = final(self).pos as int;
                        &&& passes_left(b, p, p2, op, fs, x)
                        &&& p2 <= from < b.len()
                        &&& rest == Some((gs.skip(x), z, more))
                        &&& gs.skip(x).len() == mid@.len()
                        &&& left@.len() > 0 || mid@.len() > 0
                        &&& more ==> b[z].start == mid_end
                        &&& mid_ok(b, p2, op, gs, mid@, x)
                        &&& between(b, p2, op, gs, z, more)
                        &&& x <= gs.len()
                        &&& gs.take(x) == fs.take(x)
                        &&& all_minted(
                            old(self).cached(),
                            mid@,
                            old(self).ids.next,
                            final(self).ids.next,
                        )
                        &&& carried(
                            mid@,
                            old(self).world().kept_middle(op, from, mid_end as int),
                            old(self).even(),
                        )
                        &&& final(self).stats == old(self).world().counted_middle(
                            op,
                            from,
                            mid_end as int,
                            old(self).stats,
                        )
                        &&& x > 0 ==> {
                            &&& forall|i: int|
                                0 <= i <= x ==> #[trigger] at(p2, fs.take(x), i) == at(p, fs, i) + (
                                p2 - p)
                            &&& forall|i: int|
                                p <= i < at(p, fs, x) - 1 ==> same_tok(
                                    #[trigger] a[i],
                                    b[i + (p2 - p)],
                                    0,
                                )
                            &&& b[at(p, fs, x) - 1 + (p2 - p)].kind == op
                            &&& at(p, fs, x) - 1 + (p2 - p) < b.len()
                        }
                    },
                    None => {
                        &&& final(self).pos == old(self).pos
                        &&& final(self).stats == old(self).stats
                        &&& !(passes_left(b, p, p2, op, fs, x) && (rest matches Some((mid, z, c))
                            && c == more && (left@.len() > 0 || mid.len() > 0) && (more ==> b[z].start
                            == mid_end)))
                    },
                }
            }),
        decreases old(self).tokens@.len() - old(self).pos, room(lbp_of(op) as int), 6int,
    {
        let ghost a = lex(reuse.old_src.spec_bytes());
        let ghost b = self.toks();
        let ghost p2 = self.pos as int;
        let saved_pos: usize = self.pos;
        let saved_stats: ReparseStats = self.stats;
        proof {
            lemma_lex_toks(reuse.old_src.spec_bytes());
            lemma_units_end(a, p, op, fs, left@, 0, x);
            lemma_at_order(a, p, fs, 0, x);
        }
        if !self.pass_left_units(reuse, left, op, Ghost(p), Ghost(fs), Ghost(x)) {
            self.pos = saved_pos;
            self.stats = saved_stats;
            return None;
        }
        assert(self.pos == if x == 0 {
            p2
        } else {
            at(p, fs, x) + (p2 - p)
        });
        let (mid, connected, ggs): (Vec<ChainOperand>, bool, Ghost<Seq<Form>>) = match self.reparse_middle(
            op,
            mid_end,
            Ghost(p2),
            Ghost(fs.take(x)),
        ) {
            Some(v) => v,
            None => {
                self.pos = saved_pos;
                self.stats = saved_stats;
                return None;
            },
        };
        assert(ggs@.skip(x).len() == mid@.len());
        if (left.len() == 0 && mid.len() == 0) || connected != more || (more && self.peek().start
            != mid_end) {
            self.pos = saved_pos;
            self.stats = saved_stats;
            return None;
        }
        Some((mid, ggs))
    }

    /// Parse the operands between the units kept before and after the edit
    /// again, and join all of them.
    #[verifier::spinoff_prover]
    #[verifier::rlimit(100)]
    fn splice_units(
        &mut self,
        reuse: Reuse<'a>,
        cand: &Arc<Node>,
        left: &Vec<ChainOperand>,
        right: &Vec<ChainOperand>,
        c_start: u32,
        c_end: u32,
        chain_end_new: u32,
        new_e_hi: u32,
        chain_op: TokenKind,
        min_prec: u32,
        Ghost(p): Ghost<int>,
    ) -> (r: Option<Arc<Node>>)
        requires
            old(self).inv(),
            old(self).reuse == Some(reuse),
            ({
                let a = lex(reuse.old_src.spec_bytes());
                let op = chain_op;
                let fs = flat(cand@, op);
                let n = fs.len() as int;
                let e_lo = reuse.edit.start as int;
                let e_hi = reuse.edit.end as int;
                let x = left_count(a, p, fs, e_lo, n);
                let y = right_start(a, p, fs, e_hi, 0);
                &&& n >= 2
                &&& chained(a, p, op, fs)
                &&& chain_place(a, p, op, fs)
                &&& at(p, fs, 0) == p
                &&& at(p, fs, n) - 1 < a.len()
                &&& lb(a, at(p, fs, n) - 1) == cand.stop_lbp
                &&& c_start == a[p].start
                &&& c_end == a[at(p, fs, n) - 2].end
                &&& split_at(a, p, fs, e_lo, e_hi, x, y)
                &&& 0 <= x < n
                &&& 1 <= y <= n
                &&& x <= y
                &&& x > 0 ==> ends_before(a, p, fs, x - 1, e_lo)
                &&& y < n ==> starts_after(a, p, fs, y, e_hi)
                &&& covers(a, p, op, fs, left@, 0, x)
                &&& banded(a, p, op, fs, left@, 0)
                &&& covers(a, p, op, fs, right@, y, n)
                &&& banded(a, p, op, fs, right@, y)
                &&& old(self).toks()[old(self).pos as int].start == a[p].start
                &&& c_start < e_lo
                &&& e_hi < c_end
                &&& chain_end_new == c_end + reuse.edit.delta()
                &&& new_e_hi == e_hi + reuse.edit.delta()
                &&& forall|k: int|
                    0 <= k < right@.len() ==> e_hi < (#[trigger] right@[k]).start_byte <= c_end
                &&& nodes_in(left@) == side_units(
                    *cand,
                    c_start as int,
                    c_end as int,
                    e_lo,
                    e_hi,
                    op,
                    true,
                )
                &&& nodes_in(right@) == side_units(
                    *cand,
                    c_start as int,
                    c_end as int,
                    e_lo,
                    e_hi,
                    op,
                    false,
                )
                &&& units_nodes(left@, left@.len() as int) == side_nodes(
                    *cand,
                    c_start as int,
                    c_end as int,
                    e_lo,
                    e_hi,
                    op,
                    true,
                )
                &&& units_nodes(right@, right@.len() as int) == side_nodes(
                    *cand,
                    c_start as int,
                    c_end as int,
                    e_lo,
                    e_hi,
                    op,
                    false,
                )
            }),
            cand.stop_lbp <= min_prec < lbp_of(chain_op),
            all_cached(old(self).cached(), left@),
            all_cached(old(self).cached(), right@),
        ensures
            final(self).inv(),
            final(self).same(old(self)),
            final(self).stack@ == old(self).stack@,
            r is Some <==> rejoins(
                reuse,
                old(self).toks(),
                p,
                old(self).pos as int,
                chain_op,
                flat(cand@, chain_op),
                c_end as int,
            ),
            match r {
                Some(n) => {
                    &&& parse_at(old(self).toks(), old(self).pos as int, min_prec as int)
                        == Out::Done(norm(n@), final(self).pos as int)
                    &&& fits(old(self).toks(), old(self).pos as int, n@)
                    &&& n.weighted()
                    &&& n.width == chain_end_new - c_start
                    &&& minted(old(self).cached(), &*n, old(self).ids.next, final(self).ids.next)
                },
                None => final(self).pos == old(self).pos && final(self).stats == old(self).stats,
            },
            r is Some ==> ({
                let op = chain_op;
                let (from, end) = mid_bounds(
                    reuse,
                    p,
                    old(self).pos as int,
                    op,
                    flat(cand@, op),
                    c_end as int,
                );
                &&& old(self).pos <= from < old(self).toks().len()
                &&& middle(old(self).toks(), op, from, end) matches Some((mid, _, _)) && put_together(
                    r->0,
                    *cand,
                    c_start as int,
                    c_end as int,
                    reuse.edit.start as int,
                    reuse.edit.end as int,
                    op,
                    mid.len() as int,
                    old(self).world().kept_middle(op, from, end),
                    old(self).even(),
                )
                &&& final(self).stats == reused(
                    old(self).world().counted_middle(op, from, end, old(self).stats),
                    kept_nodes(
                        *cand,
                        c_start as int,
                        c_end as int,
                        reuse.edit.start as int,
                        reuse.edit.end as int,
                        op,
                    ),
                )
            }),
        decreases old(self).tokens@.len() - old(self).pos, room(lbp_of(chain_op) as int), 7int,
    {
        let e_hi: u32 = reuse.edit.end;
        let ghost s = reuse.old_src.spec_bytes();
        let ghost a = lex(s);
        let ghost b = self.toks();
        let ghost fs = flat(cand@, chain_op);
        let ghost n = fs.len() as int;
        let ghost p2 = self.pos as int;
        let ghost op = chain_op;
        let ghost x = left_count(a, p, fs, reuse.edit.start as int, n);
        let ghost y = right_start(a, p, fs, e_hi as int, 0);
        proof {
            lemma_lex_toks(s);
            lemma_chain_rbp(op);
            crate::expr::edit::law_applied_len(reuse.edit, s);
            lemma_at_order(a, p, fs, 0, n);
            lemma_lex_bound(s, at(p, fs, n) - 2);
            lemma_units_end(a, p, op, fs, right@, y, n);
        }
        let more: bool = right.len() > 0;
        let mid_end: u32 = if more {
            right[0].start_byte - e_hi + new_e_hi
        } else {
            chain_end_new
        };
        let saved_pos: usize = self.pos;
        let saved_stats: ReparseStats = self.stats;
        proof {
            lemma_units_end(a, p, op, fs, left@, 0, x);
            lemma_rejoins(reuse, b, p, p2, op, fs, c_end as int);
        }
        let (mid, ggs): (Vec<ChainOperand>, Ghost<Seq<Form>>) = match self.units_between(
            reuse,
            left,
            chain_op,
            mid_end,
            more,
            Ghost(p),
            Ghost(fs),
            Ghost(x),
        ) {
            Some(v) => v,
            None => {
                return None;
            },
        };
        let ghost gs = ggs@;
        let ghost between = old(self).world().kept_middle(
            op,
            if x == 0 {
                p2
            } else {
                at(p, fs, x) + (p2 - p)
            },
            mid_end as int,
        );
        let ghost z = self.pos as int;
        let ghost d2 = z - at(p, fs, y);
        let ghost hs = gs + fs.subrange(y, n);
        proof {
            lemma_lex_toks(self.src.spec_bytes());
            if y < n {
                lemma_after_edit(*self, reuse, at(p, fs, y), z, right@[0].start_byte as int);
            }
            lemma_kept(a, b, p, p2, op, fs, gs, hs, x, y, d2, reuse.edit.delta());
        }
        let done = match self.join_and_place(
            reuse,
            chain_op,
            left,
            &mid,
            right,
            new_e_hi,
            c_start,
            chain_end_new,
            min_prec,
            saved_pos,
            Ghost(p),
            Ghost(fs),
            Ghost(gs),
            Ghost(hs),
            Ghost(x),
            Ghost(y),
            Ghost(d2),
            Ghost(cand.stop_lbp as int),
            Ghost(old(self).ids.next),
        ) {
            Some(v) => v,
            None => {
                self.stats = saved_stats;
                return None;
            },
        };
        proof {
            lemma_put_together(
                done,
                *cand,
                c_start as int,
                c_end as int,
                reuse.edit.start as int,
                reuse.edit.end as int,
                op,
                mid@,
                between,
                self.even(),
            );
        }
        let kept_nodes: u32 = count_units(
            left,
            Ghost(a),
            Ghost(p),
            Ghost(op),
            Ghost(fs),
            Ghost(0),
            Ghost(x),
        ).saturating_add(
            count_units(right, Ghost(a), Ghost(p), Ghost(op), Ghost(fs), Ghost(y), Ghost(n)),
        );
        self.stats.nodes_reused = self.stats.nodes_reused.saturating_add(kept_nodes);
        Some(done)
    }

    /// Keep the operands of the cached chain `cand` before and after the edit,
    /// parse those between again, and join all of them.
    #[verifier::spinoff_prover]
    #[verifier::rlimit(100)]
    pub(crate) fn try_splice_general(
        &mut self,
        reuse: Reuse<'a>,
        cand: &Arc<Node>,
        c_start: u32,
        c_end: u32,
        min_prec: u32,
        Ghost(p): Ghost<int>,
    ) -> (r: Option<Arc<Node>>)
        requires
            old(self).inv(),
            old(self).reuse == Some(reuse),
            entry_at(lex(reuse.old_src.spec_bytes()), p, c_start as u64, **cand),
            cand.stop_lbp <= min_prec < cand.m_spine,
            c_end == c_start + cand.width,
            reuse.edit.moved(c_start as int) == Some(old(self).toks()[old(self).pos as int].start),
            from_cache(old(self).cached(), &**cand),
        ensures
            final(self).inv(),
            final(self).same(old(self)),
            final(self).stack@ == old(self).stack@,
            r is Some <==> splices_general(
                reuse,
                old(self).toks(),
                old(self).pos as int,
                *cand,
                c_start as int,
                p,
            ),
            match r {
                Some(n) => {
                    &&& parse_at(old(self).toks(), old(self).pos as int, min_prec as int)
                        == Out::Done(norm(n@), final(self).pos as int)
                    &&& fits(old(self).toks(), old(self).pos as int, n@)
                    &&& n.weighted()
                    &&& n.width == c_end - c_start + reuse.edit.delta()
                    &&& minted(old(self).cached(), &*n, old(self).ids.next, final(self).ids.next)
                    &&& reuse.cache.spans is Some
                },
                None => final(self).pos == old(self).pos && final(self).stats == old(self).stats,
            },
            r is Some ==> ({
                let op = chain_edited(reuse, **cand, c_start as int)->0;
                let (from, end) = mid_bounds(
                    reuse,
                    p,
                    old(self).pos as int,
                    op,
                    flat(cand@, op),
                    c_end as int,
                );
                &&& min_prec < lbp_of(op)
                &&& old(self).pos <= from < old(self).toks().len()
                &&& middle(old(self).toks(), op, from, end) matches Some((mid, _, _)) && put_together(
                    r->0,
                    *cand,
                    c_start as int,
                    c_end as int,
                    reuse.edit.start as int,
                    reuse.edit.end as int,
                    op,
                    mid.len() as int,
                    old(self).world().kept_middle(op, from, end),
                    old(self).even(),
                )
                &&& final(self).stats == reused(
                    old(self).world().counted_middle(op, from, end, old(self).stats),
                    kept_nodes(
                        *cand,
                        c_start as int,
                        c_end as int,
                        reuse.edit.start as int,
                        reuse.edit.end as int,
                        op,
                    ),
                )
            }),
        decreases old(self).tokens@.len() - old(self).pos, room(min_prec as int), 0int,
    {
        let chain_op = match &cand.kind {
            NodeKind::Binary { op, .. } => *op,
            _ => {
                return None;
            },
        };
        if !is_associativity_conflict(chain_op) {
            return None;
        }
        let table = match &reuse.cache.spans {
            Some(t) => t,
            None => {
                return None;
            },
        };
        let e_lo: u32 = reuse.edit.start;
        let e_hi: u32 = reuse.edit.end;
        if !(c_start < e_lo && e_hi < c_end) {
            return None;
        }
        let ghost s = reuse.old_src.spec_bytes();
        let ghost a = lex(s);
        let ghost b = self.toks();
        let ghost fs = flat(cand@, chain_op);
        let ghost n = fs.len() as int;
        let ghost p2 = self.pos as int;
        let ghost op = chain_op;
        let ghost x = left_count(a, p, fs, e_lo as int, n);
        let ghost y = right_start(a, p, fs, e_hi as int, 0);
        let mut left: Vec<ChainOperand> = Vec::new();
        let mut right: Vec<ChainOperand> = Vec::new();
        proof {
            lemma_lex_toks(s);
            lemma_cached_chain(a, p, c_start as u64, *cand, op, min_prec as int);
            lemma_chain_rbp(op);
            crate::expr::edit::law_applied_len(reuse.edit, s);
            lemma_split(a, p, op, fs, e_lo as int, e_hi as int);
            assert(off(left@, op, 0, 0) == 0);
            assert(off(right@, op, y, 0) == y);
            lemma_all_none(self.cached(), 0, 0);
            assert(left@ =~= Seq::empty());
            assert(right@ =~= Seq::empty());
            assert(!ends_before(a, p, fs, n - 1, e_lo as int));
            assert(!starts_after(a, p, fs, 0, e_hi as int));
        }
        if !collect_chain_units(
            table,
            cand,
            c_start,
            c_end,
            e_lo,
            e_hi,
            chain_op,
            &mut left,
            &mut right,
            Ghost(a),
            Ghost(p),
            Ghost(fs),
            Ghost(0),
            Ghost(n),
            Ghost(x),
            Ghost(y),
            Ghost(self.cached()),
        ) {
            return None;
        }
        proof {
            assert(nodes_in(Seq::<ChainOperand>::empty()) =~= Seq::empty());
            assert(nodes_in(left@) =~= side_units(
                *cand,
                c_start as int,
                c_end as int,
                e_lo as int,
                e_hi as int,
                op,
                true,
            ));
            assert(nodes_in(right@) =~= side_units(
                *cand,
                c_start as int,
                c_end as int,
                e_lo as int,
                e_hi as int,
                op,
                false,
            ));
            lemma_lex_bound(s, at(p, fs, n) - 2);
            lemma_units_end(a, p, op, fs, right@, y, n);
            assert(x > 0 ==> ends_before(a, p, fs, x - 1, e_lo as int));
            assert(y < n ==> starts_after(a, p, fs, y, e_hi as int));
            assert forall|k: int| 0 <= k < right@.len() implies (#[trigger] right@[k]).start_byte > e_hi
                && right@[k].start_byte <= c_end by {
                lemma_units_start(a, p, op, fs, right@, y, n, k);
            }
        }
        let chain_end_new: u32 = match reuse.edit.map_old_to_new(c_end) {
            Some(v) => v,
            None => {
                return None;
            },
        };
        let new_e_hi: u32 = match reuse.edit.map_old_to_new(e_hi) {
            Some(v) => v,
            None => {
                return None;
            },
        };
        self.splice_units(
            reuse,
            cand,
            &left,
            &right,
            c_start,
            c_end,
            chain_end_new,
            new_e_hi,
            chain_op,
            min_prec,
            Ghost(p),
        )
    }
}

/// What `rejoins` says, over the streams.
proof fn lemma_rejoins<'a>(
    reuse: Reuse<'a>,
    b: Seq<Tok>,
    p: int,
    p2: int,
    op: TokenKind,
    fs: Seq<Form>,
    c_end: int,
)
    ensures
        ({
            let a = lex(reuse.old_src.spec_bytes());
            let n = fs.len() as int;
            let x = left_count(a, p, fs, reuse.edit.start as int, n);
            let y = right_start(a, p, fs, reuse.edit.end as int, 0);
            let start = if x == 0 {
                p2
            } else {
                at(p, fs, x) + (p2 - p)
            };
            let mid_end = if y < n {
                a[at(p, fs, y)].start + reuse.edit.delta()
            } else {
                c_end + reuse.edit.delta()
            };
            rejoins(reuse, b, p, p2, op, fs, c_end) == (passes_left(b, p, p2, op, fs, x) && (middle(
                b,
                op,
                start,
                mid_end,
            ) matches Some((mid, z, connected)) && {
                &&& x > 0 || mid.len() > 0
                &&& x + mid.len() + (n - y) >= 2
                &&& if y < n {
                    connected && b[z].start == mid_end
                } else {
                    !connected && b[z - 1].end == mid_end
                }
            }))
        }),
{
    reveal(rejoins);
}

/// Where a joined chain ends.
proof fn lemma_joined_end(
    a: Seq<Tok>,
    b: Seq<Tok>,
    p: int,
    p2: int,
    op: TokenKind,
    fs: Seq<Form>,
    hs: Seq<Form>,
    x: int,
    y: int,
    g: int,
    d2: int,
    e: int,
    result: Arc<Node>,
)
    requires
        kept(a, b, p, p2, op, fs, hs, x, y, g, d2, e),
        part_ok(b, p2, op, hs, *result, 0, hs.len() as int),
        at(p2, hs, 0) == p2,
    ensures
        ({
            let r = at(p2, hs, hs.len() as int) - 1;
            &&& p2 < r < b.len()
            &&& result.width == b[r - 1].end - b[p2].start
            &&& b[r - 1].end <= b[r].start
            &&& y < fs.len() ==> b[r - 1].end == a[at(p, fs, fs.len() as int) - 2].end + e
        }),
{
    reveal(kept);
    let n = fs.len() as int;
    let k = hs.len() as int;
    let r = at(p2, hs, k) - 1;
    lemma_part_tokens(result@, op, hs, 0, k);
    lemma_at_order(b, p2, hs, 0, k);
    assert(result.width == b[r - 1].end - b[p2].start);
    if y < n {
        lemma_at_order(a, p, fs, y, n);
        assert(at(p2, hs, g + (n - y)) == at(p, fs, n) + d2);
        let last = at(p, fs, n) - 2;
        assert(same_tok(a[last], b[last + d2], e));
    }
}

/// A joined chain that ends where the edit moved the old chain's end to is
/// what parsing gives.
#[verifier::rlimit(60)]
proof fn lemma_general_done<'a>(
    x: Parser<'a>,
    reuse: Reuse<'a>,
    p: int,
    op: TokenKind,
    fs: Seq<Form>,
    hs: Seq<Form>,
    result: Arc<Node>,
    done: Arc<Node>,
    stop: int,
    end_new: int,
    after: int,
    m: int,
)
    requires
        x.inv(),
        x.reuse == Some(reuse),
        ({
            let a = lex(reuse.old_src.spec_bytes());
            let b = x.toks();
            let p2 = x.pos as int;
            let n = fs.len() as int;
            let c_end = a[at(p, fs, n) - 2].end;
            &&& chain_place(a, p, op, fs)
            &&& chain_place(b, p2, op, hs)
            &&& chained(b, p2, op, hs)
            &&& fs.len() >= 2
            &&& lb(a, at(p, fs, n) - 1) == stop
            &&& reuse.edit.end <= c_end
            &&& end_new == c_end + reuse.edit.delta()
            &&& part_ok(b, p2, op, hs, *result, 0, hs.len() as int)
            &&& is_bin(result@, op)
            &&& result.m_spine == lbp_of(op)
            &&& result.width == end_new - b[p2].start
            &&& x.pos <= after < b.len()
            &&& b[after].start >= end_new
            &&& forall|k: int| x.pos <= k < after ==> (#[trigger] b[k]).start < end_new
            &&& done@ == (Shape { stop_lbp: lb(b, after), ..result@ })
            &&& done.weighted() == result.weighted()
            &&& 0 <= stop <= m < lbp_of(op)
        }),
    ensures
        parse_at(x.toks(), x.pos as int, m) == Out::Done(norm(done@), after),
        fits(x.toks(), x.pos as int, done@),
        done.weighted(),
{
    let a = lex(reuse.old_src.spec_bytes());
    let b = x.toks();
    let p2 = x.pos as int;
    let n = fs.len() as int;
    let k = hs.len() as int;
    let r = at(p2, hs, k) - 1;
    lemma_chained_listed(b, p2, op, hs);
    lemma_part_tokens(result@, op, hs, 0, k);
    lemma_at_order(b, p2, hs, 0, k);
    lemma_at_order(a, p, fs, 0, n);
    assert(result.width == b[r - 1].end - b[p2].start);
    lemma_end_tok(b, p2, r, after, end_new);
    lemma_after_edit(x, reuse, at(p, fs, n) - 1, r, end_new - reuse.edit.delta());
    assert(same_tok(a[at(p, fs, n) - 1], b[r], reuse.edit.delta()));
    lemma_restamp(result@, done@);
    assert(flat(done@, op) == flat(result@, op));
    assert(placed(b, at(p2, hs, k - 1), hs[k - 1], at(p2, hs, k - 1) + nt(hs[k - 1])));
    assert(at(p2, hs, k) == at(p2, hs, k - 1) + nt(hs[k - 1]) + 1);
    assert(hs.subrange(0, k).last() == hs[k - 1]);
    assert(inner_ok(done@, op));
    lemma_spliced_done(b, p2, op, hs, done, m);
}

} // verus!
