//! Splicing: a chain that an edit falls inside keeps the operands the edit
//! leaves alone, and only the rest of it is parsed again.

use std::sync::Arc;
use vstd::prelude::*;
use vstd::string::*;

use crate::expr::assemble::{
    chained, lemma_at_order, lemma_chain_rbp, lemma_chained_done, lemma_chained_listed, lemma_chained_of,
    lemma_chained_one, lemma_chained_prefix, lemma_chained_push, lemma_chained_tail,
};
use crate::expr::ast::{fresh_id, node_count, IdSource, Node, NodeId, NodeKind, ShapeKind};
use crate::expr::cache::{entry_at, ReuseCache, SpanTable};
use crate::expr::chain_wb::{chain_place, part_ok};
use crate::expr::grammar::{
    at, chain_form, is_chain_of, lb, lemma_lt_prefix, nt, parse_at, placed, toks_ok, Form, Out,
};
use crate::expr::lexer::{lex, Tok, TokenKind};
use crate::expr::locality::{agree, same_tok};
use crate::expr::naming::{apart, from_cache, lemma_build, lemma_cached, lemma_kid_cached, minted};
use crate::expr::op::{chain_kind, is_associativity_conflict, lbp_of, rbp, rbp_of};
use crate::expr::placement::lemma_parse;
use crate::expr::pratt_core::{
    lemma_balanced, lemma_lex_toks, lemma_list_bounds, lemma_toks_len, Parser,
};
use crate::expr::incremental::ReparseStats;
use crate::expr::relocate::{lemma_tail_recurs, lemma_tokens_upto, same_bytes};
use crate::expr::resume::{lemma_deep_parse, parses};
use crate::expr::reuse::{lemma_lex_bound, Reuse};
use crate::expr::shape::{
    bands_ok, fits, flat, grouped, is_bin, lemma_count_bound, lemma_fits_move, lemma_flat_nonempty,
    lemma_part_tokens, level, levelled, norm, sn, weight,
};
use crate::expr::subtrees::{
    beside, lemma_beside, lemma_respined, lemma_respined_grouped, respined, subtrees,
};
use crate::expr::walk::{reused, room, starting, starts_at};

verus! {

/// A tree of operands `i..j`, all of whose subtrees may be reused in their
/// bands, with its byte span.
pub open spec fn old_part(
    a: Seq<Tok>,
    p: int,
    op: TokenKind,
    fs: Seq<Form>,
    n: Node,
    i: int,
    j: int,
    s: int,
    e: int,
) -> bool {
    &&& part_ok(a, p, op, fs, n, i, j)
    &&& bands_ok(a, at(p, fs, i), n@)
    &&& s == a[at(p, fs, i)].start
    &&& e == a[at(p, fs, j) - 2].end
}

/// The two halves of a part.
pub proof fn lemma_halves(
    a: Seq<Tok>,
    p: int,
    op: TokenKind,
    fs: Seq<Form>,
    n: Arc<Node>,
    i: int,
    j: int,
    s: int,
    e: int,
)
    requires
        chain_place(a, p, op, fs),
        old_part(a, p, op, fs, *n, i, j, s, e),
        is_bin(n@, op),
    ensures
        n.kind matches NodeKind::Binary { op: o, left, right } && ({
            let k = i + flat(left@, op).len();
            &&& i < k < j
            &&& old_part(a, p, op, fs, *left, i, k, s, s + left.width)
            &&& old_part(a, p, op, fs, *right, k, j, e - right.width, e)
            &&& s <= s + left.width < e - right.width < e
        }),
{
    if let NodeKind::Binary { op: o, left, right } = n.kind {
        let k = i + flat(left@, op).len();
        let l = flat(left@, op);
        let r = flat(right@, op);
        lemma_flat_nonempty(left@, op);
        lemma_flat_nonempty(right@, op);
        assert(fs.subrange(i, k) =~= l) by {
            assert((l + r).subrange(0, l.len() as int) =~= l);
            assert(fs.subrange(i, j).subrange(0, l.len() as int) =~= fs.subrange(i, k));
        }
        assert(fs.subrange(k, j) =~= r) by {
            assert((l + r).subrange(l.len() as int, (l + r).len() as int) =~= r);
            assert(fs.subrange(i, j).subrange(l.len() as int, j - i) =~= fs.subrange(k, j));
        }
        lemma_part_tokens(left@, op, fs, i, k);
        lemma_part_tokens(right@, op, fs, k, j);
        lemma_part_tokens(n@, op, fs, i, j);
        lemma_list_bounds(a, p, fs, i, k);
        lemma_list_bounds(a, p, fs, k, j);
        lemma_at_order(a, p, fs, i, k);
        lemma_at_order(a, p, fs, k, j);
        assert(bands_ok(a, at(p, fs, i), left@));
        assert(bands_ok(a, at(p, fs, k), right@));
        assert(fits(a, at(p, fs, i), left@));
        assert(fits(a, at(p, fs, k), right@));
        assert(left.width == a[at(p, fs, k) - 2].end - a[at(p, fs, i)].start);
        assert(right.width == a[at(p, fs, j) - 2].end - a[at(p, fs, k)].start);
        assert(a[at(p, fs, k) - 2].end <= a[at(p, fs, k) - 1].start);
        assert(a[at(p, fs, k) - 1].start < a[at(p, fs, k) - 1].end);
        assert(a[at(p, fs, k) - 1].end <= a[at(p, fs, k)].start);
        assert(a[at(p, fs, k)].start < a[at(p, fs, k)].end);
        if at(p, fs, k) < at(p, fs, j) - 2 {
            assert(a[at(p, fs, k)].end <= a[at(p, fs, j) - 2].start);
        }
    }
}

/// A part whose tokens recur is a part of the chain there.
pub proof fn lemma_part_moves(
    a: Seq<Tok>,
    b: Seq<Tok>,
    p: int,
    p2: int,
    op: TokenKind,
    fs: Seq<Form>,
    gs: Seq<Form>,
    n: Arc<Node>,
    i: int,
    j: int,
    i2: int,
    d: int,
    e: int,
)
    requires
        chain_place(a, p, op, fs),
        part_ok(a, p, op, fs, *n, i, j),
        bands_ok(a, at(p, fs, i), n@),
        0 <= i2,
        i2 + (j - i) <= gs.len(),
        gs.subrange(i2, i2 + (j - i)) == fs.subrange(i, j),
        at(p2, gs, i2) == at(p, fs, i) + d,
        0 <= at(p, fs, i) + d,
        at(p, fs, j) - 1 + d < b.len(),
        forall|k: int|
            at(p, fs, i) <= k < at(p, fs, j) - 1 ==> same_tok(#[trigger] a[k], b[k + d], e),
        lb(a, at(p, fs, j) - 1) == lb(b, at(p, fs, j) - 1 + d),
    ensures
        part_ok(b, p2, op, gs, *n, i2, i2 + (j - i)),
{
    lemma_part_tokens(n@, op, fs, i, j);
    let lo = at(p, fs, i);
    let hi = at(p, fs, j) - 1;
    assert(hi == lo + sn(n@));
    lemma_at_order(a, p, fs, i, j);
    assert(agree(a, b, lo, hi, d, e));
    lemma_fits_move(a, b, lo, hi, d, e, lo, n@);
}

/// Whether the recorded span of a node is `[lo, hi)`.
pub fn span_is(table: &SpanTable, id: NodeId, lo: u32, hi: u32) -> (r: bool)
    requires
        table.wf(),
    ensures
        r == (table.span_of(id.0) == Some((lo, hi))),
{
    match table.get(id.0) {
        Some((s, e)) => s == lo && e == hi,
        None => false,
    }
}

/// The span on record for a node is `[lo, hi)`.
pub open spec fn recorded(table: SpanTable, id: NodeId, lo: int, hi: int) -> bool {
    table.span_of(id.0) matches Some((x, y)) && x == lo && y == hi
}

/// The operand of a chain at `[s, e)` that the edit `[e_lo, e_hi)` falls
/// strictly inside, with its span; none if a span on the way to it is not on
/// record.
pub open spec fn operand_at(
    table: SpanTable,
    node: Arc<Node>,
    s: int,
    e: int,
    e_lo: int,
    e_hi: int,
    op: TokenKind,
) -> Option<(Arc<Node>, int, int)>
    decreases node,
{
    let whole = if s < e_lo && e_hi < e {
        Some((node, s, e))
    } else {
        None
    };
    match node.kind {
        NodeKind::Binary { op: o, left, right } => if o == op {
            let le = s + left.width;
            let rs = e - right.width;
            if !recorded(table, left.id, s, le) || !recorded(table, right.id, rs, e) {
                None
            } else if e_lo >= s && e_hi <= le {
                operand_at(table, left, s, le, e_lo, e_hi, op)
            } else if e_lo >= rs && e_hi <= e {
                operand_at(table, right, rs, e, e_lo, e_hi, op)
            } else {
                None
            }
        } else {
            whole
        },
        _ => whole,
    }
}

/// The number, among the operands of a chain at `[s, e)`, of the one that the
/// edit falls inside.
pub open spec fn index_at(
    node: Arc<Node>,
    s: int,
    e: int,
    e_lo: int,
    e_hi: int,
    op: TokenKind,
) -> int
    decreases node,
{
    match node.kind {
        NodeKind::Binary { op: o, left, right } => if o != op {
            0
        } else if e_lo >= s && e_hi <= s + left.width {
            index_at(left, s, s + left.width, e_lo, e_hi, op)
        } else {
            flat(left@, op).len() + index_at(right, e - right.width, e, e_lo, e_hi, op)
        },
        _ => 0,
    }
}

/// Parsing at token `k` with precedence `m` ends at byte `end`.
pub open spec fn ends_at(b: Seq<Tok>, k: int, m: int, end: int) -> bool {
    parse_at(b, k, m) matches Out::Done(_, z) && b[z - 1].end == end
}

/// From token `pos` on, an operand of `op` starts at byte `start` and ends at
/// byte `end`.
pub open spec fn operand_reparses(b: Seq<Tok>, pos: int, op: TokenKind, start: int, end: int) -> bool {
    exists|k: int|
        pos <= k < b.len() && b[k].start == start && #[trigger] ends_at(
            b,
            k,
            rbp_of(op) as int,
            end,
        )
}

/// The operator of the cached chain `cand` at byte `start`, if the edit falls
/// strictly inside it and spans are on record.
pub open spec fn chain_edited<'a>(reuse: Reuse<'a>, cand: Node, start: int) -> Option<TokenKind> {
    match cand.kind {
        NodeKind::Binary { op, left, right } => if chain_kind(op) && reuse.cache.spans is Some
            && start < reuse.edit.start && reuse.edit.end < start + cand.width {
            Some(op)
        } else {
            None
        },
        _ => None,
    }
}

/// The edit falls strictly inside one operand of the cached chain `cand` at
/// byte `start`, and that operand parses again up to where the edit moved its
/// end to.
pub open spec fn splices_chain<'a>(
    reuse: Reuse<'a>,
    b: Seq<Tok>,
    pos: int,
    cand: Arc<Node>,
    start: int,
) -> bool {
    chain_edited(reuse, *cand, start) matches Some(op) && (operand_at(
        reuse.cache.spans->0,
        cand,
        start,
        start + cand.width,
        reuse.edit.start as int,
        reuse.edit.end as int,
        op,
    ) matches Some((_, os, oe)) && operand_reparses(b, pos, op, os, oe + reuse.edit.delta()))
}

/// `n` is the chain tree `cand` with operand `x` parsed again: it forks as `cand`
/// does, is as balanced, and grouped as a parse groups it if `cand` and the new
/// operand are.
pub open spec fn chain_spliced(n: Arc<Node>, cand: Arc<Node>, op: TokenKind, x: int) -> bool {
    &&& level(cand@, op) ==> level(n@, op)
    &&& exists|o: Arc<Node>| #[trigger]
        respined(n, cand, op, x, o) && (grouped(cand@) && grouped(o@) ==> grouped(n@))
}

/// The operand that the edit `[e_lo, e_hi)` falls strictly inside, with its
/// span; `None` if there is none.
fn locate_operand(
    table: &SpanTable,
    node: &Arc<Node>,
    s: u32,
    e: u32,
    e_lo: u32,
    e_hi: u32,
    op: TokenKind,
    Ghost(a): Ghost<Seq<Tok>>,
    Ghost(p): Ghost<int>,
    Ghost(fs): Ghost<Seq<Form>>,
    Ghost(i): Ghost<int>,
    Ghost(j): Ghost<int>,
) -> (r: Option<(Arc<Node>, u32, u32, Ghost<int>)>)
    requires
        table.wf(),
        chain_place(a, p, op, fs),
        old_part(a, p, op, fs, **node, i, j, s as int, e as int),
    ensures
        match r {
            Some((n, os, oe, x)) => {
                &&& operand_at(*table, *node, s as int, e as int, e_lo as int, e_hi as int, op)
                    == Some((n, os as int, oe as int))
                &&& i <= x@ < j
                &&& x@ == i + index_at(
                    *node,
                    s as int,
                    e as int,
                    e_lo as int,
                    e_hi as int,
                    op,
                )
                &&& !is_bin(n@, op)
                &&& old_part(a, p, op, fs, *n, x@, x@ + 1, os as int, oe as int)
                &&& os == a[at(p, fs, x@)].start
                &&& oe == a[at(p, fs, x@ + 1) - 2].end
                &&& os < e_lo
                &&& e_hi < oe
            },
            None => operand_at(
                *table,
                *node,
                s as int,
                e as int,
                e_lo as int,
                e_hi as int,
                op,
            ) is None,
        },
    decreases node,
{
    proof {
        lemma_flat_nonempty(node@, op);
    }
    match &node.kind {
        NodeKind::Binary { op: o, left, right } => if *o == op {
            proof {
                lemma_halves(a, p, op, fs, *node, i, j, s as int, e as int);
            }
            let ghost k = i + flat(left@, op).len();
            let le: u32 = s + left.width;
            let rs: u32 = e - right.width;
            if !span_is(table, left.id, s, le) || !span_is(table, right.id, rs, e) {
                return None;
            }
            if e_lo >= s && e_hi <= le {
                return locate_operand(
                    table,
                    left,
                    s,
                    le,
                    e_lo,
                    e_hi,
                    op,
                    Ghost(a),
                    Ghost(p),
                    Ghost(fs),
                    Ghost(i),
                    Ghost(k),
                );
            }
            if e_lo >= rs && e_hi <= e {
                return locate_operand(
                    table,
                    right,
                    rs,
                    e,
                    e_lo,
                    e_hi,
                    op,
                    Ghost(a),
                    Ghost(p),
                    Ghost(fs),
                    Ghost(k),
                    Ghost(j),
                );
            }
            return None;
        },
        _ => {},
    }
    proof {
        assert(!is_bin(node@, op));
        assert(fs.subrange(i, j).len() == 1);
    }
    if s < e_lo && e_hi < e {
        Some((Arc::clone(node), s, e, Ghost(i)))
    } else {
        None
    }
}

/// Operand `x` of `fs` has been parsed again as `f`; the operands before it
/// stand `d` tokens further on in `b`, those after it `d2` tokens and `e`
/// bytes.
#[verifier::opaque]
pub open spec fn respliced(
    a: Seq<Tok>,
    b: Seq<Tok>,
    p: int,
    p2: int,
    op: TokenKind,
    fs: Seq<Form>,
    x: int,
    f: Form,
    d2: int,
    e: int,
) -> bool {
    let gs = fs.update(x, f);
    let d = p2 - p;
    &&& chain_place(a, p, op, fs)
    &&& chain_place(b, p2, op, gs)
    &&& 0 <= x < fs.len()
    &&& forall|i: int| 0 <= i <= x ==> at(p2, gs, i) == #[trigger] at(p, fs, i) + d
    &&& forall|i: int| x < i <= fs.len() ==> at(p2, gs, i) == #[trigger] at(p, fs, i) + d2
    &&& forall|i: int| p <= i < at(p, fs, x) ==> same_tok(#[trigger] a[i], b[i + d], 0)
    &&& b.len() == a.len() + d2
    &&& forall|i: int| at(p, fs, x + 1) - 1 <= i < a.len() ==> same_tok(#[trigger] a[i], b[i + d2], e)
    &&& fs[x].stop_lbp == f.stop_lbp
}

/// Where a part that holds operand `x` begins and ends afterwards.
#[verifier::spinoff_prover]
#[verifier::rlimit(40)]
proof fn lemma_spliced_span(
    a: Seq<Tok>,
    b: Seq<Tok>,
    p: int,
    p2: int,
    op: TokenKind,
    fs: Seq<Form>,
    x: int,
    f: Form,
    d2: int,
    ee: int,
    i: int,
    j: int,
)
    requires
        respliced(a, b, p, p2, op, fs, x, f, d2, ee),
        0 <= i <= x < j <= fs.len(),
        a[at(p, fs, x)].start == b[at(p, fs, x) + (p2 - p)].start,
        b[at(p, fs, x + 1) + d2 - 2].end == a[at(p, fs, x + 1) - 2].end + ee,
    ensures
        chain_place(a, p, op, fs),
        chain_place(b, p2, op, fs.update(x, f)),
        b[at(p2, fs.update(x, f), j) - 2].end == a[at(p, fs, j) - 2].end + ee,
        b[at(p2, fs.update(x, f), i)].start == a[at(p, fs, i)].start,
        b[at(p2, fs.update(x, f), i)].start <= b[at(p2, fs.update(x, f), j) - 2].end,
        b[at(p2, fs.update(x, f), j) - 2].end <= u32::MAX,
        a[at(p, fs, x + 1) - 2].end <= a[at(p, fs, j) - 2].end,
        fs.update(x, f)[j - 1].stop_lbp == fs[j - 1].stop_lbp,
{
    reveal(respliced);
    let gs = fs.update(x, f);
    let d = p2 - p;
    lemma_at_order(a, p, fs, 0, i);
    lemma_at_order(a, p, fs, i, x);
    lemma_at_order(a, p, fs, x + 1, j);
    lemma_at_order(a, p, fs, j, fs.len() as int);
    lemma_at_order(a, p, fs, i, j);
    assert(at(p2, gs, j) == at(p, fs, j) + d2);
    assert(at(p2, gs, i) == at(p, fs, i) + d);
    lemma_order_bytes(a, p, op, fs, x + 1, j);
    lemma_order_bytes(b, p2, op, gs, i, j);
    lemma_at_order(b, p2, gs, 0, i);
    lemma_at_order(b, p2, gs, i, j);
    if x + 1 < j {
        assert(same_tok(a[at(p, fs, j) - 2], b[at(p, fs, j) - 2 + d2], ee));
    }
    if i < x {
        assert(same_tok(a[at(p, fs, i)], b[at(p, fs, i) + d], 0));
    }
}

/// A part after operand `x` is kept.
#[verifier::spinoff_prover]
#[verifier::rlimit(60)]
proof fn lemma_keep_right(
    a: Seq<Tok>,
    b: Seq<Tok>,
    p: int,
    p2: int,
    op: TokenKind,
    fs: Seq<Form>,
    x: int,
    f: Form,
    d2: int,
    ee: int,
    n: Arc<Node>,
    k: int,
    j: int,
)
    requires
        respliced(a, b, p, p2, op, fs, x, f, d2, ee),
        0 <= x < k < j <= fs.len(),
        part_ok(a, p, op, fs, *n, k, j),
        bands_ok(a, at(p, fs, k), n@),
    ensures
        part_ok(b, p2, op, fs.update(x, f), *n, k, j),
{
    reveal(respliced);
    let gs = fs.update(x, f);
    lemma_at_order(a, p, fs, 0, x);
    lemma_at_order(a, p, fs, x, k);
    lemma_at_order(a, p, fs, x + 1, k);
    lemma_at_order(a, p, fs, k, j);
    lemma_at_order(b, p2, gs, 0, k);
    assert(gs.subrange(k, j) =~= fs.subrange(k, j));
    assert(at(p2, gs, k) == at(p, fs, k) + d2);
    assert(same_tok(a[at(p, fs, j) - 1], b[at(p, fs, j) - 1 + d2], ee));
    lemma_part_moves(a, b, p, p2, op, fs, gs, n, k, j, k, d2, ee);
}

/// A part before operand `x` is kept.
#[verifier::spinoff_prover]
#[verifier::rlimit(60)]
proof fn lemma_keep_left(
    a: Seq<Tok>,
    b: Seq<Tok>,
    p: int,
    p2: int,
    op: TokenKind,
    fs: Seq<Form>,
    x: int,
    f: Form,
    d2: int,
    ee: int,
    n: Arc<Node>,
    i: int,
    k: int,
)
    requires
        respliced(a, b, p, p2, op, fs, x, f, d2, ee),
        0 <= i < k <= x < fs.len(),
        part_ok(a, p, op, fs, *n, i, k),
        bands_ok(a, at(p, fs, i), n@),
    ensures
        part_ok(b, p2, op, fs.update(x, f), *n, i, k),
{
    reveal(respliced);
    let gs = fs.update(x, f);
    let d = p2 - p;
    lemma_at_order(a, p, fs, 0, i);
    lemma_at_order(a, p, fs, i, k);
    lemma_at_order(a, p, fs, k, x);
    lemma_at_order(b, p2, gs, 0, i);
    lemma_at_order(b, p2, gs, i, k);
    assert(gs.subrange(i, k) =~= fs.subrange(i, k));
    assert(at(p2, gs, i) == at(p, fs, i) + d);
    assert(at(p2, gs, k) == at(p, fs, k) + d);
    assert(same_tok(a[at(p, fs, k) - 1], b[at(p, fs, k) - 1 + d], 0));
    lemma_part_moves(a, b, p, p2, op, fs, gs, n, i, k, i, d, 0);
}

/// A spine node like `node` over other children.
fn respine<'a>(
    ids: &mut IdSource,
    node: &Arc<Node>,
    left: Arc<Node>,
    right: Arc<Node>,
    width: u32,
    op: TokenKind,
    Ghost(b): Ghost<Seq<Tok>>,
    Ghost(p2): Ghost<int>,
    Ghost(gs): Ghost<Seq<Form>>,
    Ghost(i): Ghost<int>,
    Ghost(k): Ghost<int>,
    Ghost(j): Ghost<int>,
    Ghost(cache): Ghost<Option<&'a ReuseCache>>,
    Ghost(low): Ghost<u64>,
) -> (r: Arc<Node>)
    requires
        chain_place(b, p2, op, gs),
        part_ok(b, p2, op, gs, *left, i, k),
        part_ok(b, p2, op, gs, *right, k, j),
        width == b[at(p2, gs, j) - 2].end - b[at(p2, gs, i)].start,
        node.m_spine == lbp_of(op),
        node.stop_lbp == lbp_of(op) || node.stop_lbp == gs[j - 1].stop_lbp,
        node.m_floor < node.m_spine,
        node.wb == j - i,
        low <= old(ids).next,
        minted(cache, &*left, low, old(ids).next),
        minted(cache, &*right, low, old(ids).next),
        apart(cache, &*left, &*right),
    ensures
        old(ids).next <= final(ids).next,
        old(ids).next == 0 ==> final(ids).next == 0,
        minted(cache, &*r, low, final(ids).next),
        part_ok(b, p2, op, gs, *r, i, j),
        is_bin(r@, op),
        r.kind == (NodeKind::Binary { op, left, right }),
        r.m_spine == node.m_spine,
        r.stop_lbp == node.stop_lbp,
        r.m_floor == node.m_floor,
{
    let ghost lt = left@;
    let ghost rt = right@;
    let id = fresh_id(ids);
    let res = Node {
        kind: NodeKind::Binary { op, left, right },
        width,
        m_spine: node.m_spine,
        stop_lbp: node.stop_lbp,
        m_floor: node.m_floor,
        id,
        wb: node.wb,
    };
    proof {
        lemma_balanced(b, p2, op, gs, i, k, j, lt, rt, res@, 0);
        assert(flat(res@, op).len() == j - i);
        assert(weight(res@) == flat(res@, op).len());
        lemma_build(cache, &res, low, old(ids).next, ids.next);
    }
    Arc::new(res)
}

/// Rebuild the spine above operand `x`, which `o_new` replaces.
#[verifier::rlimit(60)]
fn rebuild<'a>(
    ids: &mut IdSource,
    node: &Arc<Node>,
    s: u32,
    e: u32,
    o_start: u32,
    o_new: &Arc<Node>,
    delta_end: u32,
    e_hi: u32,
    op: TokenKind,
    Ghost(a): Ghost<Seq<Tok>>,
    Ghost(b): Ghost<Seq<Tok>>,
    Ghost(p): Ghost<int>,
    Ghost(p2): Ghost<int>,
    Ghost(fs): Ghost<Seq<Form>>,
    Ghost(x): Ghost<int>,
    Ghost(f): Ghost<Form>,
    Ghost(d2): Ghost<int>,
    Ghost(i): Ghost<int>,
    Ghost(j): Ghost<int>,
    Ghost(cache): Ghost<Option<&'a ReuseCache>>,
    Ghost(low): Ghost<u64>,
) -> (r: Arc<Node>)
    requires
        respliced(a, b, p, p2, op, fs, x, f, d2, delta_end - e_hi),
        old_part(a, p, op, fs, **node, i, j, s as int, e as int),
        i <= x < j,
        o_start == a[at(p, fs, x)].start,
        e_hi <= a[at(p, fs, x + 1) - 2].end,
        a[at(p, fs, x)].start == b[at(p, fs, x) + (p2 - p)].start,
        b[at(p, fs, x + 1) + d2 - 2].end == a[at(p, fs, x + 1) - 2].end + delta_end - e_hi,
        norm(o_new@) == f,
        fits(b, at(p2, fs.update(x, f), x), o_new@),
        o_new.weighted(),
        !is_bin(o_new@, op),
        from_cache(cache, &**node),
        low <= old(ids).next,
        minted(cache, &**o_new, low, old(ids).next),
    ensures
        old(ids).next <= final(ids).next,
        old(ids).next == 0 ==> final(ids).next == 0,
        minted(cache, &*r, low, final(ids).next),
        part_ok(b, p2, op, fs.update(x, f), *r, i, j),
        respined(r, *node, op, x - i, *o_new),
        is_bin(node@, op) ==> {
            &&& is_bin(r@, op)
            &&& r.m_spine == node.m_spine
            &&& r.stop_lbp == node.stop_lbp
            &&& r.m_floor == node.m_floor
        },
    decreases node,
{
    let ghost gs = fs.update(x, f);
    let ghost ee = delta_end - e_hi;
    proof {
        lemma_flat_nonempty(node@, op);
        lemma_flat_nonempty(o_new@, op);
        lemma_spliced_span(a, b, p, p2, op, fs, x, f, d2, ee, i, j);
    }
    match &node.kind {
        NodeKind::Binary { op: o, left, right } => if *o == op {
            proof {
                lemma_halves(a, p, op, fs, *node, i, j, s as int, e as int);
            }
            let ghost k = i + flat(left@, op).len();
            let le: u32 = s + left.width;
            let rs: u32 = e - right.width;
            proof {
                lemma_order_bytes(a, p, op, fs, x, k);
                lemma_kid_cached(cache, &**node, &**left);
                lemma_kid_cached(cache, &**node, &**right);
            }
            let new_end: u32 = e - e_hi + delta_end;
            let (nl, nr) = if o_start < rs {
                let l = rebuild(
                    ids,
                    left,
                    s,
                    le,
                    o_start,
                    o_new,
                    delta_end,
                    e_hi,
                    op,
                    Ghost(a),
                    Ghost(b),
                    Ghost(p),
                    Ghost(p2),
                    Ghost(fs),
                    Ghost(x),
                    Ghost(f),
                    Ghost(d2),
                    Ghost(i),
                    Ghost(k),
                    Ghost(cache),
                    Ghost(low),
                );
                proof {
                    lemma_cached(cache, &**right, low, ids.next);
                    lemma_keep_right(a, b, p, p2, op, fs, x, f, d2, ee, *right, k, j);
                }
                (l, Arc::clone(right))
            } else {
                let r = rebuild(
                    ids,
                    right,
                    rs,
                    e,
                    o_start,
                    o_new,
                    delta_end,
                    e_hi,
                    op,
                    Ghost(a),
                    Ghost(b),
                    Ghost(p),
                    Ghost(p2),
                    Ghost(fs),
                    Ghost(x),
                    Ghost(f),
                    Ghost(d2),
                    Ghost(k),
                    Ghost(j),
                    Ghost(cache),
                    Ghost(low),
                );
                proof {
                    lemma_cached(cache, &**left, low, ids.next);
                    lemma_keep_left(a, b, p, p2, op, fs, x, f, d2, ee, *left, i, k);
                }
                (Arc::clone(left), r)
            };
            proof {
                assert(fs.subrange(i, j).last() == fs[j - 1]);
                assert(fits(a, at(p, fs, i), node@));
                assert(weight(node@) == flat(node@, op).len());
            }
            return respine(
                ids,
                node,
                nl,
                nr,
                new_end - s,
                op,
                Ghost(b),
                Ghost(p2),
                Ghost(gs),
                Ghost(i),
                Ghost(k),
                Ghost(j),
                Ghost(cache),
                Ghost(low),
            );
        },
        _ => {},
    }
    proof {
        assert(!is_bin(node@, op));
        assert(fs.subrange(i, j).len() == 1);
        assert(gs.subrange(i, j) =~= seq![f]);
    }
    Arc::clone(o_new)
}

/// Operands stand in order, in bytes.
pub proof fn lemma_order_bytes(a: Seq<Tok>, p: int, op: TokenKind, fs: Seq<Form>, i: int, j: int)
    requires
        chain_place(a, p, op, fs),
        0 <= i <= fs.len(),
        0 <= j <= fs.len(),
    ensures
        i < j && j < fs.len() ==> a[at(p, fs, i)].start < a[at(p, fs, j)].start,
        j <= i < fs.len() ==> a[at(p, fs, j)].start <= a[at(p, fs, i)].start,
        0 < i <= j ==> a[at(p, fs, i) - 2].end <= a[at(p, fs, j) - 2].end,
        i < j ==> a[at(p, fs, i)].start < a[at(p, fs, j) - 2].end,
{
    if i < j {
        lemma_at_order(a, p, fs, 0, i);
        lemma_at_order(a, p, fs, i, j);
        assert(a[at(p, fs, i)].start < a[at(p, fs, i)].end);
        if j < fs.len() {
            assert(placed(a, at(p, fs, j), fs[j], at(p, fs, j) + nt(fs[j])));
            assert(a[at(p, fs, i)].end <= a[at(p, fs, j)].start);
        }
        if i > 0 {
            assert(a[at(p, fs, i) - 2].end <= a[at(p, fs, j) - 2].start);
        }
        if at(p, fs, i) < at(p, fs, j) - 2 {
            assert(a[at(p, fs, i)].end <= a[at(p, fs, j) - 2].start);
        }
    } else if j < i && i < fs.len() {
        lemma_at_order(a, p, fs, 0, j);
        lemma_at_order(a, p, fs, j, i);
        assert(placed(a, at(p, fs, i), fs[i], at(p, fs, i) + nt(fs[i])));
        assert(a[at(p, fs, j)].end <= a[at(p, fs, i)].start);
    }
}

/// A cached chain as a chain of operands in place.
pub proof fn lemma_cached_chain(a: Seq<Tok>, p: int, key: u64, cand: Arc<Node>, op: TokenKind, m: int)
    requires
        toks_ok(a),
        entry_at(a, p, key, *cand),
        chain_kind(op),
        is_bin(cand@, op),
        0 <= m,
        cand.stop_lbp <= m < cand.m_spine,
    ensures
        ({
            let fs = flat(cand@, op);
            let n = fs.len() as int;
            &&& n >= 2
            &&& chained(a, p, op, fs)
            &&& chain_place(a, p, op, fs)
            &&& at(p, fs, 0) == p
            &&& at(p, fs, n) == p + sn(cand@) + 1
            &&& old_part(a, p, op, fs, *cand, 0, n, a[p].start, a[p].start + cand.width)
            &&& at(p, fs, n) - 1 < a.len()
            &&& lb(a, at(p, fs, n) - 1) == cand.stop_lbp
            &&& cand.m_spine == lbp_of(op)
        }),
{
    let f = norm(cand@);
    let fs = flat(cand@, op);
    let n = fs.len() as int;
    let q = p + sn(cand@);
    assert(parse_at(a, p, m) == Out::Done(f, q));
    lemma_parse(a, p, m);
    lemma_deep_parse(a, p, m);
    assert(f.kind->Chain_operands == fs);
    lemma_chained_of(a, p, op, f);
    lemma_chained_listed(a, p, op, fs);
    assert(fs.subrange(0, n) =~= fs);
    assert(placed(a, at(p, fs, n - 1), fs[n - 1], at(p, fs, n - 1) + nt(fs[n - 1])));
    assert(at(p, fs, n) == at(p, fs, n - 1) + nt(fs[n - 1]) + 1);
    assert(fs[n - 1].stop_lbp == lb(a, q));
}

/// A chain assembled in the new stream is what parsing gives there.
pub proof fn lemma_spliced_done(b: Seq<Tok>, p2: int, op: TokenKind, gs: Seq<Form>, n: Arc<Node>, m: int)
    requires
        chain_place(b, p2, op, gs),
        chained(b, p2, op, gs),
        part_ok(b, p2, op, gs, *n, 0, gs.len() as int),
        is_bin(n@, op),
        n.m_spine == lbp_of(op),
        n.stop_lbp == lb(b, at(p2, gs, gs.len() as int) - 1),
        0 <= m < lbp_of(op),
        n.stop_lbp <= m,
    ensures
        parse_at(b, p2, m) == Out::Done(norm(n@), at(p2, gs, gs.len() as int) - 1),
        fits(b, p2, n@),
{
    let k = gs.len() as int;
    let r = at(p2, gs, k) - 1;
    lemma_flat_nonempty(n@, op);
    if let ShapeKind::Binary { op: o, left, right } = n@.kind {
        lemma_flat_nonempty(*left, op);
        lemma_flat_nonempty(*right, op);
    }
    assert(gs.subrange(0, k) =~= gs);
    assert(b[r].kind != op);
    lemma_chained_done(b, p2, op, gs, m);
    lemma_chained_listed(b, p2, op, gs);
    lemma_part_tokens(n@, op, gs, 0, k);
    assert(placed(b, at(p2, gs, k - 1), gs[k - 1], at(p2, gs, k - 1) + nt(gs[k - 1])));
    assert(at(p2, gs, k) == at(p2, gs, k - 1) + nt(gs[k - 1]) + 1);
    assert(gs.last().stop_lbp == lb(b, r));
    assert(norm(n@) == chain_form(b, p2, op, gs, r));
}

/// The tokens before an edit recur.
pub proof fn lemma_before_edit<'a>(x: Parser<'a>, reuse: Reuse<'a>, p: int, q: int, hi: int)
    requires
        x.inv(),
        x.reuse == Some(reuse),
        ({
            let a = lex(reuse.old_src.spec_bytes());
            &&& 0 <= p < q < a.len()
            &&& a[p].start == x.toks()[x.pos as int].start
            &&& a[q - 1].end <= hi <= a[q].start
            &&& hi < reuse.edit.start
        }),
    ensures
        ({
            let a = lex(reuse.old_src.spec_bytes());
            let d = x.pos - p;
            &&& q + d < x.toks().len()
            &&& forall|i: int| p <= i < q ==> same_tok(#[trigger] a[i], x.toks()[i + d], 0)
            &&& x.toks()[q + d].start >= hi
        }),
{
    let s = reuse.old_src.spec_bytes();
    let t = x.src.spec_bytes();
    let a = lex(s);
    lemma_lex_bound(s, p);
    lemma_lex_bound(s, q);
    lemma_lex_bound(s, q - 1);
    lemma_lex_toks(s);
    assert(a[p].start <= hi) by {
        if p < q - 1 {
            assert(a[p].end <= a[q - 1].start);
        }
    }
    crate::expr::edit::law_applied_len(reuse.edit, s);
    assert(same_bytes(s, t, a[p].start, hi, 0)) by {
        assert forall|k: int| a[p].start <= k < hi implies #[trigger] s[k] == t[k + 0] by {
            crate::expr::edit::law_moved_byte(reuse.edit, s, k);
        }
        crate::expr::edit::law_moved_byte(reuse.edit, s, hi);
    }
    lemma_tokens_upto(s, t, p, q, x.pos as int, 0, hi);
}

/// The tokens after an edit recur.
pub proof fn lemma_after_edit<'a>(x: Parser<'a>, reuse: Reuse<'a>, i: int, j: int, lo: int)
    requires
        x.inv(),
        x.reuse == Some(reuse),
        ({
            let a = lex(reuse.old_src.spec_bytes());
            let b = x.toks();
            let e = reuse.edit.delta();
            &&& 0 <= i < a.len()
            &&& 0 <= j < b.len()
            &&& reuse.edit.end <= lo
            &&& {
                ||| a[i].start == lo && b[j].start == lo + e
                ||| i > 0 && j > 0 && a[i - 1].end == lo && b[j - 1].end == lo + e
            }
        }),
    ensures
        ({
            let a = lex(reuse.old_src.spec_bytes());
            let b = x.toks();
            &&& b.len() - j == a.len() - i
            &&& forall|k: int|
                i <= k < a.len() ==> same_tok(#[trigger] a[k], b[k + (j - i)], reuse.edit.delta())
        }),
{
    let s = reuse.old_src.spec_bytes();
    let t = x.src.spec_bytes();
    let a = lex(s);
    let e = reuse.edit.delta();
    lemma_lex_bound(s, i);
    if i > 0 {
        lemma_lex_bound(s, i - 1);
    }
    crate::expr::edit::law_applied_len(reuse.edit, s);
    assert(same_bytes(s, t, lo, s.len() as int, e)) by {
        assert forall|k: int| lo <= k < s.len() implies #[trigger] s[k] == t[k + e] by {
            crate::expr::edit::law_moved_byte(reuse.edit, s, k);
        }
    }
    lemma_tail_recurs(s, t, i, j, lo, e);
}

/// Operand `x` parsed again, with the same extent up to the edit: the chain
/// with that operand in its place stands in the new stream.
#[verifier::rlimit(60)]
proof fn lemma_respliced(
    a: Seq<Tok>,
    b: Seq<Tok>,
    p: int,
    p2: int,
    op: TokenKind,
    fs: Seq<Form>,
    x: int,
    f: Form,
    d2: int,
    e: int,
)
    requires
        toks_ok(b),
        chain_place(a, p, op, fs),
        chained(a, p, op, fs),
        fs.len() >= 2,
        0 <= x < fs.len(),
        0 <= p2,
        at(p, fs, 0) == p,
        ({
            let d = p2 - p;
            let y = at(p, fs, x) + d;
            &&& 0 <= y
            &&& parse_at(b, y, rbp_of(op) as int) == Out::Done(f, y + nt(f))
            &&& at(p, fs, x + 1) + d2 == y + nt(f) + 1
            &&& b.len() == a.len() + d2
            &&& forall|i: int| p <= i < at(p, fs, x) ==> same_tok(#[trigger] a[i], b[i + d], 0)
            &&& forall|i: int|
                at(p, fs, x + 1) - 1 <= i < a.len() ==> same_tok(#[trigger] a[i], b[i + d2], e)
        }),
    ensures
        fs[x].stop_lbp == f.stop_lbp,
        respliced(a, b, p, p2, op, fs, x, f, d2, e),
        chained(b, p2, op, fs.update(x, f)),
        at(p2, fs.update(x, f), fs.len() as int) == at(p, fs, fs.len() as int) + d2,
        at(p2, fs.update(x, f), x) == at(p, fs, x) + (p2 - p),
{
    let d = p2 - p;
    let y = at(p, fs, x) + d;
    let n = fs.len() as int;
    let gs = fs.update(x, f);
    let head = fs.take(x).push(f);
    lemma_chain_rbp(op);
    lemma_parse(b, y, rbp_of(op) as int);
    lemma_at_order(a, p, fs, 0, x);
    lemma_at_order(a, p, fs, 0, x + 1);
    lemma_at_order(a, p, fs, x + 1, n);
    if x == 0 {
        lemma_chained_one(b, p2, op, f);
        assert(head =~= seq![f]);
        assert(crate::expr::grammar::lt(head, 0) == 0);
        assert(crate::expr::grammar::lt(head, 1) == nt(f) + 1);
    } else {
        assert(same_tok(a[at(p, fs, x) - 1], b[at(p, fs, x) - 1 + d], 0));
        assert(a[at(p, fs, x) - 1].kind == op);
        assert forall|i: int| p <= i < at(p, fs, x) - 1 implies same_tok(#[trigger] a[i], b[i + d], 0) by {}
        lemma_chained_prefix(a, b, p, op, fs, x, d, 0);
        assert(at(p2, fs.take(x), x) == y);
        assert(parses(b, y, rbp_of(op) as int, f)) by {
            reveal(parses);
        }
        lemma_chained_push(b, p2, op, fs.take(x), f);
    }
    assert forall|i: int| 0 <= i <= x implies #[trigger] at(p2, head, i) == at(p, fs, i) + d by {
        if x > 0 {
            assert(at(p2, fs.take(x), i) == at(p, fs, i) + d);
        }
    }
    assert(at(p2, head, x + 1) == y + nt(f) + 1);
    let last = at(p, fs, x + 1) - 1;
    assert(same_tok(a[last], b[last + d2], e));
    if x + 1 < n {
        assert(a[at(p, fs, x + 1) - 1].kind == op);
        lemma_chained_tail(a, b, p, op, fs, x + 1, n, d2, e, p2, head);
        assert(head + fs.subrange(x + 1, n) =~= gs);
    } else {
        assert(head =~= gs);
    }
    assert forall|i: int| 0 <= i <= x + 1 implies at(p2, gs, i) == at(p2, head, i) by {
        lemma_lt_prefix(gs, head, i);
    }
    lemma_chained_listed(b, p2, op, gs);
    assert(fs[x].stop_lbp == f.stop_lbp) by {
        assert(placed(a, at(p, fs, x), fs[x], at(p, fs, x) + nt(fs[x])));
        assert(at(p, fs, x + 1) == at(p, fs, x) + nt(fs[x]) + 1);
    }
    assert forall|i: int| 0 <= i <= x implies at(p2, gs, i) == #[trigger] at(p, fs, i) + d by {
        assert(at(p2, head, i) == at(p, fs, i) + d);
    }
    assert forall|i: int| x < i <= n implies at(p2, gs, i) == #[trigger] at(p, fs, i) + d2 by {
        if x + 1 < n {
            assert(at(p2, head + fs.subrange(x + 1, n), head.len() + (i - (x + 1))) == at(p, fs, i) + d2);
        }
    }
    reveal(respliced);
}

/// The token where an operand before the edit starts.
proof fn lemma_start_tok<'a>(
    x: Parser<'a>,
    reuse: Reuse<'a>,
    p: int,
    op: TokenKind,
    fs: Seq<Form>,
    i: int,
    start_tok: int,
)
    requires
        x.inv(),
        x.reuse == Some(reuse),
        ({
            let a = lex(reuse.old_src.spec_bytes());
            let b = x.toks();
            let o_start = a[at(p, fs, i)].start;
            &&& chain_place(a, p, op, fs)
            &&& at(p, fs, 0) == p
            &&& 0 <= i < fs.len()
            &&& a[p].start == b[x.pos as int].start
            &&& o_start < reuse.edit.start
            &&& x.pos <= start_tok < b.len()
            &&& b[start_tok].start == o_start
            &&& forall|k: int| x.pos <= k < start_tok ==> (#[trigger] b[k]).start < o_start
        }),
    ensures
        ({
            let a = lex(reuse.old_src.spec_bytes());
            let d = x.pos - p;
            &&& start_tok == at(p, fs, i) + d
            &&& forall|k: int| p <= k < at(p, fs, i) ==> same_tok(#[trigger] a[k], x.toks()[k + d], 0)
        }),
{
    let a = lex(reuse.old_src.spec_bytes());
    let b = x.toks();
    let d = x.pos - p;
    let y = at(p, fs, i);
    lemma_lex_toks(x.src.spec_bytes());
    lemma_at_order(a, p, fs, 0, i);
    lemma_at_order(a, p, fs, i, i + 1);
    if i > 0 {
        assert(a[y - 1].end <= a[y].start);
        lemma_before_edit(x, reuse, p, y, a[y].start);
        assert(same_tok(a[y - 1], b[y - 1 + d], 0));
        assert(a[y - 1].start < a[y - 1].end);
        if start_tok < y + d {
            assert(b[start_tok].start < b[start_tok].end);
            if start_tok < y + d - 1 {
                assert(b[start_tok].end <= b[y - 1 + d].start);
            }
        }
        if start_tok > y + d {
            assert(b[y + d].start < a[y].start);
        }
    } else {
        if start_tok > x.pos {
            assert(b[x.pos as int].start < a[y].start);
        }
    }
}

/// The first token from `z` on at or after the end of token `r - 1` is `r`.
pub proof fn lemma_end_tok(b: Seq<Tok>, z: int, r: int, after: int, byte: int)
    requires
        toks_ok(b),
        0 <= z <= r < b.len(),
        0 < r,
        b[r - 1].end == byte,
        z <= after < b.len(),
        b[after].start >= byte,
        forall|k: int| z <= k < after ==> (#[trigger] b[k]).start < byte,
    ensures
        after == r,
{
    assert(b[r - 1].end <= b[r].start);
    assert(b[r - 1].start < b[r - 1].end);
    if after > r {
        assert(b[r].start < byte);
    }
    if after < r {
        assert(b[after].start < b[after].end);
        if after < r - 1 {
            assert(b[after].end <= b[r - 1].start);
        }
    }
}

impl<'a> Parser<'a> {
    /// Parse operand `x` of a chain again; `None` unless it ends where the
    /// edit moved its end to.
    #[verifier::spinoff_prover]
    #[verifier::rlimit(100)]
    fn reparse_operand(
        &mut self,
        reuse: Reuse<'a>,
        o_start: u32,
        o_end: u32,
        op: TokenKind,
        Ghost(p): Ghost<int>,
        Ghost(fs): Ghost<Seq<Form>>,
        Ghost(x): Ghost<int>,
    ) -> (r: Option<Arc<Node>>)
        requires
            old(self).inv(),
            old(self).reuse == Some(reuse),
            chain_place(lex(reuse.old_src.spec_bytes()), p, op, fs),
            chained(lex(reuse.old_src.spec_bytes()), p, op, fs),
            at(p, fs, 0) == p,
            fs.len() >= 2,
            0 <= x < fs.len(),
            o_start == lex(reuse.old_src.spec_bytes())[at(p, fs, x)].start,
            o_end == lex(reuse.old_src.spec_bytes())[at(p, fs, x + 1) - 2].end,
            o_start < reuse.edit.start,
            reuse.edit.end < o_end,
            old(self).toks()[old(self).pos as int].start == lex(reuse.old_src.spec_bytes())[p].start,
        ensures
            final(self).inv(),
            final(self).same(old(self)),
            final(self).stack@ == old(self).stack@,
            r is Some <==> operand_reparses(
                old(self).toks(),
                old(self).pos as int,
                op,
                o_start as int,
                o_end + reuse.edit.delta(),
            ),
            match r {
                Some(n) => {
                    let a = lex(reuse.old_src.spec_bytes());
                    let b = old(self).toks();
                    let p2 = old(self).pos as int;
                    let f = norm(n@);
                    let d2 = final(self).pos - (at(p, fs, x + 1) - 1);
                    &&& respliced(a, b, p, p2, op, fs, x, f, d2, reuse.edit.delta())
                    &&& chained(b, p2, op, fs.update(x, f))
                    &&& at(p2, fs.update(x, f), fs.len() as int) == at(p, fs, fs.len() as int) + d2
                    &&& fits(b, at(p2, fs.update(x, f), x), n@)
                    &&& n.weighted()
                    &&& !is_bin(n@, op)
                    &&& f.stop_lbp == fs[x].stop_lbp
                    &&& old(self).even() ==> levelled(n@)
                    &&& old(self).world().kept(
                        starting(b, p2, o_start as int),
                        rbp_of(op) as int,
                    ).subset_of(subtrees(&*n))
                    &&& a[at(p, fs, x)].start == b[at(p, fs, x) + (p2 - p)].start
                    &&& b[at(p, fs, x + 1) + d2 - 2].end == a[at(p, fs, x + 1) - 2].end
                        + reuse.edit.delta()
                    &&& b.len() == a.len() + d2
                    &&& forall|i: int|
                        at(p, fs, x + 1) - 1 <= i < a.len() ==> same_tok(
                            #[trigger] a[i],
                            b[i + d2],
                            reuse.edit.delta(),
                        )
                },
                None => final(self).pos == old(self).pos && final(self).stats == old(self).stats,
            },
            r is Some ==> old(self).pos <= starting(
                old(self).toks(),
                old(self).pos as int,
                o_start as int,
            ) < old(self).toks().len(),
            r matches Some(o_new) ==> minted(
                old(self).cached(),
                &*o_new,
                old(self).ids.next,
                final(self).ids.next,
            ),
            r is Some ==> final(self).stats == old(self).world().counted(
                starting(old(self).toks(), old(self).pos as int, o_start as int),
                rbp_of(op) as int,
                old(self).stats,
            ),
        decreases old(self).tokens@.len() - old(self).pos, room(lbp_of(op) as int), 5int,
    {
        let ghost a = lex(reuse.old_src.spec_bytes());
        let ghost b = self.toks();
        let ghost p2 = self.pos as int;
        proof {
            lemma_chain_rbp(op);
            lemma_lex_toks(self.src.spec_bytes());
            lemma_at_order(a, p, fs, 0, x + 1);
            lemma_lex_bound(reuse.old_src.spec_bytes(), at(p, fs, x + 1) - 2);
            crate::expr::edit::law_applied_len(reuse.edit, reuse.old_src.spec_bytes());
        }
        let new_o_end: u32 = match reuse.edit.map_old_to_new(o_end) {
            Some(v) => v,
            None => {
                return None;
            },
        };
        let saved_pos: usize = self.pos;
        let saved_stats: ReparseStats = self.stats;
        let start_tok: usize = match self.find_token_index(o_start) {
            Some(t) => t,
            None => {
                return None;
            },
        };
        proof {
            assert(b[start_tok as int].start == self.tokens@[start_tok as int].start);
            assert forall|k: int| p2 <= k < b.len() && b[k].start == o_start implies k
                == start_tok by {
                if k > start_tok {
                    assert(b[start_tok as int].end <= b[k].start);
                    assert(b[start_tok as int].start < b[start_tok as int].end);
                }
            }
        }
        if self.tokens[start_tok].start != o_start {
            return None;
        }
        proof {
            lemma_start_tok(*self, reuse, p, op, fs, x, start_tok as int);
        }
        assert(starts_at(b, start_tok as int, o_start as int));
        assert(starting(b, p2, o_start as int) == start_tok);
        self.pos = start_tok;
        let o_new = match self.parse_expr(rbp(op)) {
            Ok(v) => v,
            Err(_) => {
                self.pos = saved_pos;
                self.stats = saved_stats;
                return None;
            },
        };
        let ghost f = norm(o_new@);
        let ghost z = self.pos as int;
        proof {
            lemma_parse(b, start_tok as int, rbp_of(op) as int);
            lemma_lex_bound(self.src.spec_bytes(), z - 1);
            assert(o_new.width == b[z - 1].end - b[start_tok as int].start);
            assert(ends_at(b, start_tok as int, rbp_of(op) as int, new_o_end as int) <==> o_start
                + o_new.width == new_o_end);
        }
        if o_start + o_new.width != new_o_end {
            self.pos = saved_pos;
            self.stats = saved_stats;
            return None;
        }
        proof {
            let last = at(p, fs, x + 1) - 1;
            lemma_after_edit(*self, reuse, last, z, o_end as int);
            lemma_respliced(a, b, p, p2, op, fs, x, f, z - last, reuse.edit.delta());
            lemma_flat_nonempty(o_new@, op);
            if is_bin(o_new@, op) {
                assert(is_chain_of(f, op));
            }
        }
        Some(o_new)
    }
}

impl<'a> Parser<'a> {
    /// Parse again the one operand of the cached chain `cand` that the edit
    /// falls inside, and rebuild the spine above it.
    #[verifier::rlimit(60)]
    pub(crate) fn try_splice_chain(
        &mut self,
        reuse: Reuse<'a>,
        cand: &Arc<Node>,
        c_start: u32,
        c_end: u32,
        min_prec: u32,
        Ghost(p): Ghost<int>,
    ) -> (r: Option<Arc<Node>>)
        requires
            old(self).inv(),
            old(self).reuse == Some(reuse),
            entry_at(lex(reuse.old_src.spec_bytes()), p, c_start as u64, **cand),
            cand.stop_lbp <= min_prec < cand.m_spine,
            c_end == c_start + cand.width,
            reuse.edit.moved(c_start as int) == Some(old(self).toks()[old(self).pos as int].start),
            from_cache(old(self).cached(), &**cand),
        ensures
            final(self).inv(),
            final(self).same(old(self)),
            final(self).stack@ == old(self).stack@,
            r is Some <==> splices_chain(
                reuse,
                old(self).toks(),
                old(self).pos as int,
                *cand,
                c_start as int,
            ),
            match r {
                Some(n) => {
                    &&& parse_at(old(self).toks(), old(self).pos as int, min_prec as int)
                        == Out::Done(norm(n@), final(self).pos as int)
                    &&& fits(old(self).toks(), old(self).pos as int, n@)
                    &&& n.weighted()
                    &&& minted(old(self).cached(), &*n, old(self).ids.next, final(self).ids.next)
                    &&& reuse.cache.spans is Some
                    &&& old(self).even() && levelled(cand@) ==> levelled(n@)
                },
                None => final(self).pos == old(self).pos && final(self).stats == old(self).stats,
            },
            r is Some ==> ({
                let op = chain_edited(reuse, **cand, c_start as int)->0;
                let (o, os, oe) = operand_at(
                    reuse.cache.spans->0,
                    *cand,
                    c_start as int,
                    c_end as int,
                    reuse.edit.start as int,
                    reuse.edit.end as int,
                    op,
                )->0;
                &&& min_prec < lbp_of(op)
                &&& old(self).pos <= starting(old(self).toks(), old(self).pos as int, os)
                    < old(self).toks().len()
                &&& chain_spliced(r->0, *cand, op, index_at(
                    *cand,
                    c_start as int,
                    c_end as int,
                    reuse.edit.start as int,
                    reuse.edit.end as int,
                    op,
                ))
                &&& beside(
                    *cand,
                    op,
                    index_at(
                        *cand,
                        c_start as int,
                        c_end as int,
                        reuse.edit.start as int,
                        reuse.edit.end as int,
                        op,
                    ),
                ).union(
                    old(self).world().kept(
                        starting(old(self).toks(), old(self).pos as int, os),
                        rbp_of(op) as int,
                    ),
                ).subset_of(subtrees(&*r->0))
                &&& final(self).stats == reused(
                    old(self).world().counted(
                        starting(old(self).toks(), old(self).pos as int, os),
                        rbp_of(op) as int,
                        old(self).stats,
                    ),
                    if node_count(cand@) >= node_count(o@) {
                        node_count(cand@) - node_count(o@)
                    } else {
                        0
                    },
                )
            }),
        decreases old(self).tokens@.len() - old(self).pos, room(min_prec as int), 0int,
    {
        let chain_op = match &cand.kind {
            NodeKind::Binary { op, .. } => *op,
            _ => {
                return None;
            },
        };
        if !is_associativity_conflict(chain_op) {
            return None;
        }
        let table = match &reuse.cache.spans {
            Some(t) => t,
            None => {
                return None;
            },
        };
        let e_lo: u32 = reuse.edit.start;
        let e_hi: u32 = reuse.edit.end;
        if !(c_start < e_lo && e_hi < c_end) {
            return None;
        }
        let ghost s = reuse.old_src.spec_bytes();
        let ghost a = lex(s);
        let ghost b = self.toks();
        let ghost fs = flat(cand@, chain_op);
        let ghost n = fs.len() as int;
        let ghost p2 = self.pos as int;
        let ghost op = chain_op;
        let ghost e = reuse.edit.delta();
        proof {
            lemma_lex_toks(s);
            lemma_cached_chain(a, p, c_start as u64, *cand, op, min_prec as int);
            lemma_chain_rbp(op);
            crate::expr::edit::law_applied_len(reuse.edit, s);
            assert(b[p2].start == c_start);
        }
        let found = locate_operand(
            table,
            cand,
            c_start,
            c_end,
            e_lo,
            e_hi,
            chain_op,
            Ghost(a),
            Ghost(p),
            Ghost(fs),
            Ghost(0),
            Ghost(n),
        );
        let (o_old, o_start, o_end, gx): (Arc<Node>, u32, u32, Ghost<int>) = match found {
            Some(x) => x,
            None => {
                return None;
            },
        };
        let ghost x = gx@;
        proof {
            lemma_lex_bound(s, at(p, fs, n) - 2);
            assert(at(p, fs, n) - 2 >= 0);
        }
        let chain_end_new: u32 = match reuse.edit.map_old_to_new(c_end) {
            Some(v) => v,
            None => {
                return None;
            },
        };
        let new_e_hi: u32 = match reuse.edit.map_old_to_new(e_hi) {
            Some(v) => v,
            None => {
                return None;
            },
        };
        let saved_pos: usize = self.pos;
        let saved_stats: ReparseStats = self.stats;
        let o_new = match self.reparse_operand(
            reuse,
            o_start,
            o_end,
            chain_op,
            Ghost(p),
            Ghost(fs),
            Ghost(x),
        ) {
            Some(v) => v,
            None => {
                return None;
            },
        };
        let ghost f = norm(o_new@);
        let ghost z = self.pos as int;
        let ghost d2 = z - (at(p, fs, x + 1) - 1);
        let ghost cache = self.cached();
        let ghost low = old(self).ids.next;
        let node = rebuild(
            &mut self.ids,
            cand,
            c_start,
            c_end,
            o_start,
            &o_new,
            new_e_hi,
            e_hi,
            chain_op,
            Ghost(a),
            Ghost(b),
            Ghost(p),
            Ghost(p2),
            Ghost(fs),
            Ghost(x),
            Ghost(f),
            Ghost(d2),
            Ghost(0),
            Ghost(n),
            Ghost(cache),
            Ghost(low),
        );
        proof {
            let last = at(p, fs, n) - 1;
            lemma_at_order(a, p, fs, x + 1, n);
            assert(same_tok(a[last], b[last + d2], e));
            assert(a[last - 1].end <= a[last].start);
            assert(b[last + d2].start >= chain_end_new);
        }
        let after: usize = match self.find_token_index(chain_end_new) {
            Some(t) => t,
            None => {
                self.pos = saved_pos;
                self.stats = saved_stats;
                return None;
            },
        };
        proof {
            lemma_chain_spliced(
                a,
                b,
                p,
                p2,
                op,
                fs,
                x,
                f,
                d2,
                e,
                *cand,
                node,
                z,
                after as int,
                min_prec as int,
            );
            lemma_count_part(a, p, op, fs, *cand, 0, n);
            lemma_count_part(a, p, op, fs, o_old, x, x + 1);
            lemma_beside(node, *cand, op, x, o_new);
            lemma_respined(node, *cand, op, x, o_new);
            if grouped(cand@) && grouped(o_new@) {
                lemma_respined_grouped(node, *cand, op, x, o_new);
            }
            assert(chain_spliced(node, *cand, op, x)) by {
                assert(respined(node, *cand, op, x, o_new));
            }
        }
        self.pos = after;
        self.stats.nodes_reused = self.stats.nodes_reused.saturating_add(
            cand.count().saturating_sub(o_old.count()),
        );
        Some(node)
    }
}

/// A chain with one operand parsed again is what parsing gives.
#[verifier::rlimit(60)]
proof fn lemma_chain_spliced(
    a: Seq<Tok>,
    b: Seq<Tok>,
    p: int,
    p2: int,
    op: TokenKind,
    fs: Seq<Form>,
    x: int,
    f: Form,
    d2: int,
    e: int,
    cand: Arc<Node>,
    node: Arc<Node>,
    z: int,
    after: int,
    m: int,
)
    requires
        fs.len() >= 2,
        0 <= x < fs.len(),
        respliced(a, b, p, p2, op, fs, x, f, d2, e),
        chained(b, p2, op, fs.update(x, f)),
        part_ok(b, p2, op, fs.update(x, f), *node, 0, fs.len() as int),
        is_bin(node@, op),
        node.m_spine == lbp_of(op),
        node.stop_lbp == cand.stop_lbp,
        at(p2, fs.update(x, f), fs.len() as int) == at(p, fs, fs.len() as int) + d2,
        lb(a, at(p, fs, fs.len() as int) - 1) == cand.stop_lbp,
        a[at(p, fs, x)].start == b[at(p, fs, x) + (p2 - p)].start,
        b[at(p, fs, x + 1) + d2 - 2].end == a[at(p, fs, x + 1) - 2].end + e,
        cand.stop_lbp <= m < lbp_of(op),
        z == at(p, fs, x + 1) - 1 + d2,
        0 <= z <= after < b.len(),
        b[after].start >= a[at(p, fs, fs.len() as int) - 2].end + e,
        forall|k: int|
            z <= k < after ==> (#[trigger] b[k]).start < a[at(p, fs, fs.len() as int) - 2].end + e,
        b.len() == a.len() + d2,
        forall|i: int|
            at(p, fs, x + 1) - 1 <= i < a.len() ==> same_tok(#[trigger] a[i], b[i + d2], e),
    ensures
        parse_at(b, p2, m) == Out::Done(norm(node@), after),
        fits(b, p2, node@),
{
    let n = fs.len() as int;
    let gs = fs.update(x, f);
    let r = at(p, fs, n) - 1 + d2;
    lemma_spliced_span(a, b, p, p2, op, fs, x, f, d2, e, 0, n);
    lemma_at_order(a, p, fs, 0, n);
    lemma_at_order(a, p, fs, x + 1, n);
    assert(same_tok(a[r - d2], b[r - d2 + d2], e));
    lemma_spliced_done(b, p2, op, gs, node, m);
    lemma_at_order(b, p2, gs, 0, n);
    lemma_end_tok(b, z, r, after, a[at(p, fs, n) - 2].end + e);
}

/// A part has no more nodes than 32 bits count.
pub proof fn lemma_count_part(
    a: Seq<Tok>,
    p: int,
    op: TokenKind,
    fs: Seq<Form>,
    n: Arc<Node>,
    i: int,
    j: int,
)
    requires
        chain_place(a, p, op, fs),
        part_ok(a, p, op, fs, *n, i, j),
        bands_ok(a, at(p, fs, i), n@),
    ensures
        node_count(n@) <= u32::MAX,
{
    lemma_count_bound(a, at(p, fs, i), n@);
    lemma_toks_len(a, a.len() - 1);
}

} // verus!
