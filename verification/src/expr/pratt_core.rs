//! The Pratt parser: one machine for fresh parsing, incremental reparsing and
//! error localisation.

use std::sync::Arc;
use vstd::prelude::*;
use vstd::string::*;
use vstd::utf8::*;

use crate::expr::ast::{fresh_id, lemma_call_shape, same_kids, shapes, IdSource, Node, NodeId, NodeKind, Shape, ShapeKind};
use crate::expr::cache::ReuseCache;
use crate::expr::contexts::{ctx_inner, ctx_list, ctx_loop, ctx_nud, ctx_parse, ctx_step, Ctx};
use crate::expr::grammar::{
    at, chain_form, form_ok, lb, list_at, listed, loop_at, lt, min_of, no_spine, nt, nud_at,
    parse_at, placed, seal, span, state_ok, step_at, toks_ok, Form, FormKind, Out, OutSeq,
};
use crate::expr::incremental::ReparseStats;
use crate::expr::reuse::Reuse;
use crate::expr::lexer::{
    lemma_boundary, lemma_boundary_after, lemma_lex_from, lemma_tok_at, lex, models, Tok, Token,
    TokenKind,
};
use crate::expr::naming::{
    all_minted, apart, built, drawn, lemma_all_none, lemma_all_one, lemma_all_push, lemma_all_range,
    lemma_all_single, lemma_apart, lemma_build, lemma_joined, lemma_range, lemma_rebuilt, minted, mints, numbered,
};
use crate::expr::op::{
    chain_kind, is_postfix, is_prefix, lbp, lbp_of, operator_class, postfix_kind, prefix_rbp, rbp,
    rbp_of, OperatorClass, MIN_PREC,
};
use crate::expr::parser::ParseError;
use crate::expr::placement::{lemma_list, lemma_listed_push, lemma_nud, lemma_parse, lemma_step};
use crate::expr::shape::{
    canon, canon_part, fits, flat, grouped, grouped_part, halved, inner_ok, is_bin, is_operand, lemma_flat_nonempty, lemma_norm_call, lemma_part_tokens,
    lemma_levelled_kids, lemma_restamp, levelled, norm, norms, sn, weight,
};
use crate::expr::subtrees::{
    among, inner, lemma_among_all, lemma_among_first, lemma_among_more, lemma_among_one,
    lemma_among_push, lemma_among_split, lemma_args, lemma_inner, lemma_inner_same, lemma_kid,
    subtrees, subtrees_in,
};
use crate::expr::walk::{parsed_one, room, World};

verus! {

/// A lexed source is a token stream.
pub proof fn lemma_lex_toks(s: Seq<u8>)
    requires
        s.len() <= u32::MAX,
    ensures
        toks_ok(lex(s)),
{
    lemma_lex_from(s, 0);
    let a = lex(s);
    assert forall|i: int| 0 <= i < a.len() implies 0 <= (#[trigger] a[i]).start <= a[i].end
        <= u32::MAX by {
        if i < a.len() - 1 {
            assert(a[i].start < a[i].end);
        }
    }
}

/// Operand of a chain, with the byte its first token starts at.
pub struct ChainOperand {
    pub start_byte: u32,
    pub node: Arc<Node>,
}

/// What is known of the operands of a chain of `op` that starts at token `p`:
/// they stand for `fs`, in place.
pub open spec fn operands_ok(
    a: Seq<Tok>,
    p: int,
    op: TokenKind,
    fs: Seq<Form>,
    ops: Seq<ChainOperand>,
) -> bool {
    &&& ops.len() == fs.len()
    &&& forall|k: int|
        0 <= k < ops.len() ==> {
            &&& (#[trigger] ops[k]).start_byte == a[at(p, fs, k)].start
            &&& norm(ops[k].node@) == fs[k]
            &&& fits(a, at(p, fs, k), ops[k].node@)
            &&& ops[k].node.weighted()
            &&& !is_bin(ops[k].node@, op)
        }
}

/// The operands were parsed without reuse, the first one as a left operand.
pub open spec fn operands_canon(op: TokenKind, m: int, ops: Seq<ChainOperand>) -> bool {
    forall|k: int|
        0 <= k < ops.len() ==> canon_part((#[trigger] ops[k]).node@, op, m, k == 0)
}

/// Each operand is grouped as without reuse.
pub open spec fn operands_grouped(ops: Seq<ChainOperand>) -> bool {
    forall|k: int| 0 <= k < ops.len() ==> grouped((#[trigger] ops[k]).node@)
}

/// Every chain in each operand is balanced.
pub open spec fn operands_levelled(ops: Seq<ChainOperand>) -> bool {
    forall|k: int| 0 <= k < ops.len() ==> levelled((#[trigger] ops[k]).node@)
}

/// Operand count of a tree seen as a chain of `op`.
pub fn chain_size(n: &Node, op: TokenKind) -> (r: u32)
    requires
        chain_kind(op),
        n.weighted(),
    ensures
        r == flat(n@, op).len(),
{
    proof {
        lemma_flat_nonempty(n@, op);
    }
    match &n.kind {
        NodeKind::Binary { op: o, .. } => if *o == op {
            n.wb
        } else {
            1
        },
        _ => 1,
    }
}

/// Join operands `lo..hi` of a chain into a balanced tree.
pub(crate) fn build_balanced<'a>(
    ids: &mut IdSource,
    op: TokenKind,
    operands: &Vec<ChainOperand>,
    lo: usize,
    hi: usize,
    chain_lbp: u32,
    Ghost(a): Ghost<Seq<Tok>>,
    Ghost(p): Ghost<int>,
    Ghost(fs): Ghost<Seq<Form>>,
    Ghost(m): Ghost<int>,
    Ghost(cache): Ghost<Option<&'a ReuseCache>>,
    Ghost(low): Ghost<u64>,
) -> (r: Arc<Node>)
    requires
        lo < hi <= operands@.len(),
        chain_kind(op),
        chain_lbp == lbp_of(op),
        toks_ok(a),
        0 <= p,
        listed(a, p, fs),
        operands_ok(a, p, op, fs, operands@),
        low <= old(ids).next,
        all_minted(cache, operands@, low, old(ids).next),
    ensures
        flat(r@, op) == fs.subrange(lo as int, hi as int),
        fits(a, at(p, fs, lo as int), r@),
        inner_ok(r@, op),
        r.weighted(),
        r@.stop_lbp == fs[hi - 1].stop_lbp,
        hi - lo == 1 ==> r == operands@[lo as int].node,
        hi - lo > 1 ==> is_bin(r@, op) && r@.m_spine == chain_lbp && r@.m_floor == chain_lbp - 1,
        operands_canon(op, m, operands@) ==> canon_part(r@, op, m, lo == 0),
        operands_grouped(operands@) ==> grouped_part(r@, op),
        operands_levelled(operands@) ==> levelled(r@),
        among(operands@, lo as int, hi as int).subset_of(subtrees(&*r)),
        hi - lo > 1 ==> among(operands@, lo as int, hi as int).subset_of(inner(&*r)),
        old(ids).next <= final(ids).next,
        old(ids).next == 0 ==> final(ids).next == 0,
        minted(cache, &*r, low, final(ids).next),
        hi - lo > 1 ==> built(cache, &*r, low, final(ids).next),
        forall|id: u64| #[trigger]
            mints(cache, &*r, id) ==> old(ids).next <= id < final(ids).next || drawn(
                cache,
                operands@,
                lo as int,
                hi as int,
                id,
            ),
    decreases hi - lo,
{
    if hi - lo == 1 {
        proof {
            lemma_flat_nonempty(operands@[lo as int].node@, op);
            assert(fs.subrange(lo as int, hi as int) =~= seq![fs[lo as int]]);
            lemma_all_one(cache, operands@, low, ids.next, lo as int);
            lemma_among_one(operands@, lo as int);
            assert(forall|id: u64| #[trigger]
                mints(cache, &*operands@[lo as int].node, id) ==> drawn(
                    cache,
                    operands@,
                    lo as int,
                    hi as int,
                    id,
                ));
        }
        return Arc::clone(&operands[lo].node);
    }
    let mid: usize = lo + (hi - lo) / 2 + (hi - lo) % 2;
    let left = build_balanced(
        ids,
        op,
        operands,
        lo,
        mid,
        chain_lbp,
        Ghost(a),
        Ghost(p),
        Ghost(fs),
        Ghost(m),
        Ghost(cache),
        Ghost(low),
    );
    let ghost n1 = ids.next;
    proof {
        lemma_all_range(cache, operands@, low, old(ids).next, n1);
    }
    let right = build_balanced(
        ids,
        op,
        operands,
        mid,
        hi,
        chain_lbp,
        Ghost(a),
        Ghost(p),
        Ghost(fs),
        Ghost(m),
        Ghost(cache),
        Ghost(low),
    );
    let ghost n2 = ids.next;
    let ghost l = left@;
    let ghost rr = right@;
    proof {
        assert(flat(l, op).len() == mid - lo);
        assert(flat(rr, op).len() == hi - mid);
        lemma_list_bounds(a, p, fs, lo as int, hi as int);
        assert(operands@[lo as int].start_byte == a[at(p, fs, lo as int)].start);
        assert(operands@[hi - 1].start_byte == a[at(p, fs, hi - 1)].start);
        assert(norm(operands@[hi - 1].node@) == fs[hi - 1]);
    }
    let start: u32 = operands[lo].start_byte;
    let last_start: u32 = operands[hi - 1].start_byte;
    let end: u32 = last_start + operands[hi - 1].node.width;
    let stop: u32 = operands[hi - 1].node.stop_lbp;
    let wb: u32 = chain_size(&left, op) + chain_size(&right, op);
    let id = fresh_id(ids);
    let node = Node {
        kind: NodeKind::Binary { op, left, right },
        width: end - start,
        m_spine: chain_lbp,
        stop_lbp: stop,
        m_floor: chain_lbp - 1,
        id,
        wb,
    };
    proof {
        lemma_balanced(a, p, op, fs, lo as int, mid as int, hi as int, l, rr, node@, m);
        lemma_joined(
            cache,
            operands@,
            lo as int,
            mid as int,
            hi as int,
            left,
            right,
            &node,
            low,
            old(ids).next,
            n1,
            n2,
            ids.next,
        );
        assert(weight(node@) == flat(node@, op).len());
        lemma_among_split(operands@, lo as int, mid as int, hi as int);
        lemma_kid(&node, &*left);
        lemma_kid(&node, &*right);
        lemma_inner(&node);
    }
    Arc::new(node)
}

/// Two adjacent stretches of a chain make one.
pub proof fn lemma_balanced(
    a: Seq<Tok>,
    p: int,
    op: TokenKind,
    fs: Seq<Form>,
    lo: int,
    mid: int,
    hi: int,
    l: Shape,
    r: Shape,
    t: Shape,
    m: int,
)
    requires
        chain_kind(op),
        toks_ok(a),
        0 <= p,
        listed(a, p, fs),
        0 <= lo < mid < hi <= fs.len(),
        flat(l, op) == fs.subrange(lo, mid),
        flat(r, op) == fs.subrange(mid, hi),
        fits(a, at(p, fs, lo), l),
        fits(a, at(p, fs, mid), r),
        inner_ok(l, op),
        inner_ok(r, op),
        t.kind == (ShapeKind::Binary { op, left: Box::new(l), right: Box::new(r) }),
        t.width == a[at(p, fs, hi) - 2].end - a[at(p, fs, lo)].start,
        t.m_spine == lbp_of(op),
        t.stop_lbp == fs[hi - 1].stop_lbp || t.stop_lbp == lbp_of(op),
        t.m_floor < lbp_of(op),
    ensures
        flat(t, op) == fs.subrange(lo, hi),
        fits(a, at(p, fs, lo), t),
        inner_ok(t, op),
        is_bin(t, op),
        2 * (mid - lo) == hi - lo || 2 * (mid - lo) == hi - lo + 1 ==> halved(l, r, op),
        t.stop_lbp == fs[hi - 1].stop_lbp && t.m_floor == lbp_of(op) - 1 && halved(l, r, op)
            && canon_part(l, op, m, lo == 0) && canon_part(r, op, m, false) ==> canon_part(
            t,
            op,
            m,
            lo == 0,
        ),
{
    assert(fs.subrange(lo, mid) + fs.subrange(mid, hi) =~= fs.subrange(lo, hi));
    assert(flat(t, op) == fs.subrange(lo, hi));
    assert(flat(t, op).last() == fs[hi - 1]);
    lemma_part_tokens(l, op, fs, lo, mid);
    lemma_part_tokens(r, op, fs, mid, hi);
    lemma_part_tokens(t, op, fs, lo, hi);
}

/// Where a stretch of a list begins and ends.
pub proof fn lemma_list_bounds(a: Seq<Tok>, p: int, fs: Seq<Form>, lo: int, hi: int)
    requires
        toks_ok(a),
        0 <= p,
        listed(a, p, fs),
        0 <= lo < hi <= fs.len(),
    ensures
        at(p, fs, hi) == at(p, fs, hi - 1) + nt(fs[hi - 1]) + 1,
        0 <= at(p, fs, lo) <= at(p, fs, hi - 1),
        at(p, fs, hi) - 1 < a.len(),
        2 * (hi - lo) <= at(p, fs, hi) - at(p, fs, lo),
        a.len() <= u32::MAX + 1,
        a[at(p, fs, lo)].start <= a[at(p, fs, hi - 1)].start,
        fs[hi - 1].width == a[at(p, fs, hi) - 2].end - a[at(p, fs, hi - 1)].start,
    decreases hi - lo,
{
    assert(placed(a, at(p, fs, hi - 1), fs[hi - 1], at(p, fs, hi - 1) + nt(fs[hi - 1])));
    assert(placed(a, at(p, fs, lo), fs[lo], at(p, fs, lo) + nt(fs[lo])));
    lemma_toks_len(a, a.len() - 1);
    if lo < hi - 1 {
        lemma_list_bounds(a, p, fs, lo, hi - 1);
        assert(at(p, fs, lo) < at(p, fs, hi - 1));
        assert(a[at(p, fs, lo)].end <= a[at(p, fs, hi - 1)].start);
    }
}

/// A stream has at most as many tokens as 32-bit offsets.
pub proof fn lemma_toks_len(a: Seq<Tok>, i: int)
    requires
        toks_ok(a),
        0 <= i < a.len(),
    ensures
        i <= a[i].start,
    decreases i,
{
    if i > 0 {
        lemma_toks_len(a, i - 1);
        assert(a[i - 1].end <= a[i].start);
    }
}


/// Parser state: a source, its tokens and a position, with what the
/// incremental and the recovering uses of the parser add.
pub struct Parser<'a> {
    pub src: &'a str,
    pub tokens: &'a [Token],
    pub pos: usize,
    pub ids: IdSource,
    /// Subtrees of an earlier parse that may be reused.
    pub reuse: Option<Reuse<'a>>,
    /// Whether open contexts are recorded in `stack`.
    pub tracking: bool,
    pub stack: Vec<Ctx>,
    pub stats: ReparseStats,
}

/// Reuse keeps the grouping of a parse without reuse.
pub open spec fn keeps_grouping<'a>(reuse: Option<Reuse<'a>>) -> bool {
    reuse matches Some(r) ==> r.cache.strict()
}

/// Reuse keeps chains balanced.
pub open spec fn keeps_level<'a>(reuse: Option<Reuse<'a>>) -> bool {
    reuse matches Some(r) ==> r.cache.level()
}

/// What may be reused.
pub open spec fn cache_of<'a>(reuse: Option<Reuse<'a>>) -> Option<&'a ReuseCache> {
    match reuse {
        Some(r) => Some(r.cache),
        None => None,
    }
}

/// The contexts on the stack after a failure that left `open` contexts open.
pub open spec fn stack_after(tracking: bool, before: Seq<Ctx>, open: Seq<Ctx>) -> Seq<Ctx> {
    if tracking {
        before + open
    } else {
        before
    }
}

/// `n` is the tree of expression `f` that starts at token `p` of `a`, from a
/// parse at `m`; one that reuses nothing unless `reuses`, and keeps the
/// grouping of a parse that reuses nothing if `strict`, balanced chains if
/// `even`.
pub open spec fn tree_ok(
    a: Seq<Tok>,
    reuses: bool,
    strict: bool,
    even: bool,
    p: int,
    n: Node,
    f: Form,
    m: int,
    whole: bool,
) -> bool {
    &&& norm(n@) == f
    &&& fits(a, p, n@)
    &&& n.weighted()
    &&& !reuses ==> canon(n@, m, whole)
    &&& strict ==> grouped(n@)
    &&& even ==> levelled(n@)
}

impl<'a> Parser<'a> {
    pub open spec fn toks(&self) -> Seq<Tok> {
        models(self.tokens@, self.src.spec_bytes())
    }

    /// What the parse goes by.
    pub open spec fn world(&self) -> World<'a> {
        World { src: self.src.spec_bytes(), tokens: self.tokens@, reuse: self.reuse }
    }

    #[verifier::inline]
    pub open spec fn strict(&self) -> bool {
        keeps_grouping(self.reuse)
    }

    #[verifier::inline]
    pub open spec fn even(&self) -> bool {
        keeps_level(self.reuse)
    }

    #[verifier::inline]
    pub open spec fn cached(&self) -> Option<&'a ReuseCache> {
        cache_of(self.reuse)
    }

    pub open spec fn inv(&self) -> bool {
        &&& self.toks() == lex(self.src.spec_bytes())
        &&& self.src.spec_bytes().len() <= u32::MAX
        &&& self.pos < self.tokens@.len()
        &&& self.reuse matches Some(r) ==> r.ok(self.src.spec_bytes()) && !self.tracking
    }

    /// Everything but position, stack and statistics is the same, and
    /// identities were only given out.
    pub open spec fn same(&self, o: &Self) -> bool {
        &&& self.src == o.src
        &&& self.tokens == o.tokens
        &&& self.reuse == o.reuse
        &&& self.tracking == o.tracking
        &&& o.ids.next <= self.ids.next
        &&& o.ids.next == 0 ==> self.ids.next == 0
    }

    pub(crate) fn peek(&self) -> (t: Token)
        requires
            self.inv(),
        ensures
            t == self.tokens@[self.pos as int],
            t.kind == self.toks()[self.pos as int].kind,
            t.start == self.toks()[self.pos as int].start,
            t.end == self.toks()[self.pos as int].end,
    {
        self.tokens[self.pos]
    }

    /// Consume the current token, which is not the last one.
    pub(crate) fn advance(&mut self) -> (t: Token)
        requires
            old(self).inv(),
            old(self).toks()[old(self).pos as int].kind != TokenKind::Eof,
        ensures
            final(self).inv(),
            final(self).ids == old(self).ids,
            final(self).same(old(self)),
            final(self).pos == old(self).pos + 1,
            final(self).stack == old(self).stack,
            final(self).stats == old(self).stats,
            t == old(self).tokens@[old(self).pos as int],
    {
        proof {
            lemma_lex_from(self.src.spec_bytes(), 0);
        }
        let t = self.tokens[self.pos];
        self.pos = self.pos + 1;
        t
    }

    /// End byte of the most recently consumed token.
    fn last_end(&self) -> (r: u32)
        requires
            self.inv(),
            self.pos > 0,
        ensures
            r == self.toks()[self.pos - 1].end,
    {
        self.tokens[self.pos - 1].end
    }

    /// The text of the identifier or literal at token `i`.
    fn text_at(&self, i: usize) -> (r: String)
        requires
            self.inv(),
            i < self.tokens@.len() - 1,
        ensures
            r@ == self.toks()[i as int].text,
    {
        proof {
            let s = self.src.spec_bytes();
            let a = lex(s);
            lemma_lex_from(s, 0);
            let t = a[i as int];
            assert(tok_at_ok(s, t.start, t.end)) by {
                assert(a[i as int].kind != TokenKind::Eof);
                lemma_tok_at(s, t.start);
            }
            encode_utf8_valid_utf8(self.src@);
            lemma_boundary(s, t.start);
            lemma_boundary_after(s, t.end);
        }
        self.tokens[i].text(self.src).to_owned()
    }

    fn mint(&mut self) -> (r: NodeId)
        ensures
            numbered(r.0, old(self).ids.next, final(self).ids.next),
            final(self).same(old(self)),
            final(self).pos == old(self).pos,
            final(self).stack == old(self).stack,
            final(self).stats == old(self).stats,
    {
        fresh_id(&mut self.ids)
    }

    fn on_parsed(&mut self)
        ensures
            final(self).ids == old(self).ids,
            final(self).same(old(self)),
            final(self).pos == old(self).pos,
            final(self).stack == old(self).stack,
            final(self).stats == parsed_one(old(self).stats),
    {
        self.stats.nodes_parsed = self.stats.nodes_parsed.saturating_add(1);
    }

    fn open_ctx(&mut self, ctx: Ctx)
        ensures
            final(self).ids == old(self).ids,
            final(self).same(old(self)),
            final(self).pos == old(self).pos,
            final(self).stats == old(self).stats,
            final(self).stack@ == stack_after(old(self).tracking, old(self).stack@, seq![ctx]),
    {
        if self.tracking {
            self.stack.push(ctx);
        }
        assert(self.tracking ==> self.stack@ =~= old(self).stack@ + seq![ctx]);
    }

    fn close_ctx(&mut self)
        ensures
            final(self).ids == old(self).ids,
            final(self).same(old(self)),
            final(self).pos == old(self).pos,
            final(self).stats == old(self).stats,
            final(self).stack@ == (if old(self).tracking && old(self).stack@.len() > 0 {
                old(self).stack@.drop_last()
            } else {
                old(self).stack@
            }),
    {
        if self.tracking {
            let _ = self.stack.pop();
        }
    }
}

/// The nodes in `ops` stand for the list elements `fs`, in place.
pub open spec fn nodes_ok(a: Seq<Tok>, p: int, fs: Seq<Form>, ops: Seq<ChainOperand>) -> bool {
    &&& ops.len() == fs.len()
    &&& forall|k: int|
        0 <= k < ops.len() ==> {
            &&& (#[trigger] ops[k]).start_byte == a[at(p, fs, k)].start
            &&& norm(ops[k].node@) == fs[k]
            &&& fits(a, at(p, fs, k), ops[k].node@)
            &&& ops[k].node.weighted()
        }
}

/// The nodes of a list, without their start bytes.
fn nodes_of(ops: &Vec<ChainOperand>) -> (r: Vec<Arc<Node>>)
    ensures
        r@.len() == ops@.len(),
        forall|k: int| 0 <= k < r@.len() ==> #[trigger] r@[k] == ops@[k].node,
{
    let mut out: Vec<Arc<Node>> = Vec::new();
    let mut i: usize = 0;
    while i < ops.len()
        invariant
            i <= ops@.len(),
            out@.len() == i,
            forall|k: int| 0 <= k < i ==> #[trigger] out@[k] == ops@[k].node,
        decreases ops@.len() - i,
    {
        out.push(Arc::clone(&ops[i].node));
        i = i + 1;
    }
    out
}

/// `n` with another `stop_lbp`.
pub(crate) fn stamp_stop(n: Arc<Node>, stop: u32) -> (r: Arc<Node>)
    ensures
        r@ == (Shape { stop_lbp: stop as int, ..n@ }),
        r.weighted() == n.weighted(),
        r.id == n.id,
        same_kids(&*n, &*r),
{
    if n.stop_lbp == stop {
        n
    } else {
        Arc::new(n.restamped(n.m_spine, stop, n.m_floor))
    }
}

impl<'a> Parser<'a> {
    /// Finish a node that spans from `start_byte` to the last consumed token.
    fn finish(&mut self, kind: NodeKind, start_byte: u32, m_spine: u32, m_floor: u32) -> (r: Arc<
        Node,
    >)
        requires
            old(self).inv(),
            old(self).pos > 0,
            start_byte <= old(self).toks()[old(self).pos - 1].end,
        ensures
            final(self).inv(),
            final(self).same(old(self)),
            final(self).pos == old(self).pos,
            final(self).stack == old(self).stack,
            final(self).stats == old(self).stats,
            r.kind == kind,
            r.width == old(self).toks()[old(self).pos - 1].end - start_byte,
            r.m_spine == m_spine,
            r.stop_lbp == 0,
            r.m_floor == m_floor,
            r.wb == 1,
            numbered(r.id.0, old(self).ids.next, final(self).ids.next),
    {
        let width: u32 = self.last_end() - start_byte;
        let id = self.mint();
        Arc::new(Node { kind, width, m_spine, stop_lbp: 0, m_floor, id, wb: 1 })
    }

    /// Parse the expression at the current token, absorbing operators that
    /// bind tighter than `min_prec`.
    pub fn parse_expr(&mut self, min_prec: u32) -> (r: Result<Arc<Node>, ParseError>)
        requires
            old(self).inv(),
            min_prec < u32::MAX,
        ensures
            final(self).inv(),
            final(self).same(old(self)),
            match parse_at(old(self).toks(), old(self).pos as int, min_prec as int) {
                Out::Done(f, q) => {
                    &&& r matches Ok(n)
                    &&& tree_ok(old(self).toks(), old(self).reuse is Some, old(self).strict(), old(self).even(), old(self).pos as int, *n, f, min_prec as int, true)
                    &&& minted(old(self).cached(), &*n, old(self).ids.next, final(self).ids.next)
                    &&& old(self).world().kept(old(self).pos as int, min_prec as int).subset_of(
                        subtrees(&*n),
                    )
                    &&& final(self).pos == q
                    &&& final(self).stack@ == old(self).stack@
                    &&& final(self).stats == old(self).world().counted(
                        old(self).pos as int,
                        min_prec as int,
                        old(self).stats,
                    )
                },
                Out::Fail(e) => {
                    &&& r == Result::<Arc<Node>, ParseError>::Err(e)
                    &&& final(self).stack@ == stack_after(
                        old(self).tracking,
                        old(self).stack@,
                        ctx_parse(old(self).toks(), old(self).pos as int, min_prec as int),
                    )
                },
            },
            old(self).world().some_reusable(old(self).pos as int, min_prec as int) ==> (r matches Ok(n)
                && exists|start: u32, i: int| #[trigger]
                old(self).world().taken(old(self).pos as int, min_prec as int, n, start, i)),
        decreases old(self).tokens@.len() - old(self).pos, room(min_prec as int), 4int,
    {
        let start_tok: usize = self.pos;
        self.open_ctx(Ctx::Expr { min_prec, start_tok });
        let r = self.parse_expr_inner(min_prec);
        if r.is_ok() {
            self.close_ctx();
            proof {
                if old(self).tracking {
                    assert(self.stack@ =~= old(self).stack@);
                }
            }
        } else {
            proof {
                if old(self).tracking {
                    assert(self.stack@ =~= old(self).stack@ + ctx_parse(
                        old(self).toks(),
                        old(self).pos as int,
                        min_prec as int,
                    ));
                }
            }
        }
        r
    }

    #[verifier::rlimit(50)]
    fn parse_expr_inner(&mut self, min_prec: u32) -> (r: Result<Arc<Node>, ParseError>)
        requires
            old(self).inv(),
            min_prec < u32::MAX,
        ensures
            final(self).inv(),
            final(self).same(old(self)),
            match parse_at(old(self).toks(), old(self).pos as int, min_prec as int) {
                Out::Done(f, q) => {
                    &&& r matches Ok(n)
                    &&& tree_ok(old(self).toks(), old(self).reuse is Some, old(self).strict(), old(self).even(), old(self).pos as int, *n, f, min_prec as int, true)
                    &&& minted(old(self).cached(), &*n, old(self).ids.next, final(self).ids.next)
                    &&& old(self).world().kept(old(self).pos as int, min_prec as int).subset_of(
                        subtrees(&*n),
                    )
                    &&& final(self).pos == q
                    &&& final(self).stack@ == old(self).stack@
                    &&& final(self).stats == old(self).world().counted(
                        old(self).pos as int,
                        min_prec as int,
                        old(self).stats,
                    )
                },
                Out::Fail(e) => {
                    &&& r == Result::<Arc<Node>, ParseError>::Err(e)
                    &&& final(self).stack@ == stack_after(
                        old(self).tracking,
                        old(self).stack@,
                        ctx_inner(old(self).toks(), old(self).pos as int, min_prec as int),
                    )
                },
            },
            old(self).world().some_reusable(old(self).pos as int, min_prec as int) ==> (r matches Ok(n)
                && exists|start: u32, i: int| #[trigger]
                old(self).world().taken(old(self).pos as int, min_prec as int, n, start, i)),
        decreases old(self).tokens@.len() - old(self).pos, room(min_prec as int), 3int,
    {
        let ghost a = self.toks();
        let ghost p = self.pos as int;
        let ghost m = min_prec as int;
        let ghost stack0 = self.stack@;
        proof {
            lemma_lex_toks(self.src.spec_bytes());
            lemma_nud(a, p);
            lemma_parse(a, p, m);
        }
        let start_byte: u32 = self.peek().start;
        let ghost w = self.world();
        let ghost st0 = self.stats;
        let ghost lo = self.ids.next;
        if let Some(n) = self.try_reuse(min_prec) {
            proof {
                w.lemma_counted(p, m, st0);
            }
            return Ok(n);
        }
        let ghost lo1 = self.ids.next;
        proof {
            w.lemma_kept(p, m);
        }
        let first = match self.nud(start_byte) {
            Ok(n) => n,
            Err(e) => {
                return Err(e);
            },
        };
        let stop: u32 = lbp(self.peek().kind);
        let mut left: Arc<Node> = stamp_stop(Arc::clone(&first), stop);
        proof {
            let f = nud_at(a, p)->Done_0;
            assert(tree_ok(old(self).toks(), old(self).reuse is Some, old(self).strict(), old(self).even(), p, *first, f, m, false));
            assert(tree_ok(old(self).toks(), old(self).reuse is Some, old(self).strict(), old(self).even(), p, *first, f, m, true));
            lemma_restamp(first@, left@);
            lemma_levelled_kids(first@, left@);
            lemma_inner_same(&*first, &*left);
            if nud_at(a, p) is Done {
                lemma_rebuilt(self.cached(), &*first, &*left, lo1, self.ids.next);
                lemma_range(self.cached(), &*left, lo1, self.ids.next, lo, self.ids.next);
            }
        }
        proof {
            w.lemma_counted(p, m, st0);
            assert(nud_at(a, p) is Done ==> w.counted(p, m, st0) == w.counted_loop(
                p,
                m,
                norm(left@),
                no_spine(),
                self.pos as int,
                self.stats,
            ));
            assert(nud_at(a, p) is Done ==> w.kept(p, m).subset_of(
                inner(&*left).union(
                    w.kept_loop(p, m, norm(left@), no_spine(), self.pos as int),
                ),
            ));
        }
        let mut spine_min: u32 = u32::MAX;
        let ghost mut spine: int = no_spine();
        loop
            invariant_except_break
                self.inv(),
                self.same(old(self)),
                a == self.toks(),
                toks_ok(a),
                p == old(self).pos,
                m == min_prec,
                min_prec < u32::MAX,
                0 <= p < self.pos,
                start_byte == a[p].start,
                spine == spine_min,
                m < spine,
                stack0 == old(self).stack@,
                self.stack@ == stack0,
                state_ok(a, p, norm(left@), spine, self.pos as int),
                fits(a, p, left@),
                left.weighted(),
                self.reuse is None ==> canon(left@, m, false),
                self.strict() ==> grouped(left@),
                self.even() ==> levelled(left@),
                lo == old(self).ids.next,
                lo <= self.ids.next,
                built(self.cached(), &*left, lo, self.ids.next),
                parse_at(a, p, m) == loop_at(a, p, m, norm(left@), spine, self.pos as int),
                ctx_inner(a, p, m) == ctx_loop(a, p, m, norm(left@), spine, self.pos as int),
                w == self.world(),
                w.counted(p, m, st0) == w.counted_loop(
                    p,
                    m,
                    norm(left@),
                    spine,
                    self.pos as int,
                    self.stats,
                ),
                w.kept(p, m).subset_of(
                    inner(&*left).union(w.kept_loop(p, m, norm(left@), spine, self.pos as int)),
                ),
                !w.some_reusable(p, m),
                self.reuse is None && spine_min == u32::MAX ==> canon(left@, m, true),
                spine_min < u32::MAX ==> !is_operand(left@),
            ensures
                self.inv(),
                self.same(old(self)),
                self.stack@ == stack0,
                spine == spine_min,
                norm(left@).m_spine == spine,
                fits(a, p, left@),
                left.weighted(),
                self.reuse is None ==> canon(left@, m, false),
                self.strict() ==> grouped(left@),
                self.even() ==> levelled(left@),
                lo == old(self).ids.next,
                lo <= self.ids.next,
                built(self.cached(), &*left, lo, self.ids.next),
                parse_at(a, p, m) == Out::Done(norm(left@), self.pos as int),
                w.counted(p, m, st0) == self.stats,
                w.kept(p, m).subset_of(inner(&*left)),
                self.reuse is None && spine_min == u32::MAX ==> canon(left@, m, true),
                spine_min < u32::MAX ==> !is_operand(left@),
            decreases self.tokens@.len() - self.pos,
        {
            let ghost q = self.pos as int;
            proof {
                w.lemma_counted_loop(p, m, norm(left@), spine, q, self.stats);
                w.lemma_kept_loop(p, m, norm(left@), spine, q);
                lemma_inner(&*left);
            }
            proof {
                lemma_rebuilt(self.cached(), &*left, &*left, lo, self.ids.next);
            }
            let next_kind = self.peek().kind;
            let next_lbp: u32 = lbp(next_kind);
            if next_lbp <= min_prec {
                proof {
                    assert(seal(norm(left@), spine) == norm(left@));
                }
                break;
            }
            if next_lbp < spine_min {
                spine_min = next_lbp;
            }
            proof {
                lemma_step(a, p, norm(left@), spine, q);
                assert(min_of(spine, lb(a, q)) == lb(a, q));
                spine = lb(a, q);
            }
            let step = if is_postfix(next_kind) {
                self.parse_postfix(Arc::clone(&left), start_byte, min_prec, spine_min, Ghost(p), Ghost(lo))
            } else {
                match operator_class(next_kind) {
                    OperatorClass::AssociativityConflict => self.parse_assoc_chain(
                        Arc::clone(&left),
                        next_kind,
                        start_byte,
                        Ghost(p),
                        Ghost(m),
                        Ghost(lo),
                    ),
                    _ => self.led(Arc::clone(&left), start_byte, min_prec, spine_min, Ghost(p), Ghost(lo)),
                }
            };
            match step {
                Ok(n) => {
                    let stop: u32 = lbp(self.peek().kind);
                    left = stamp_stop(Arc::clone(&n), stop);
                    proof {
                        lemma_restamp(n@, left@);
                        lemma_levelled_kids(n@, left@);
                        lemma_inner_same(&*n, &*left);
                        lemma_rebuilt(self.cached(), &*n, &*left, lo, self.ids.next);
                    }
                },
                Err(e) => {
                    return Err(e);
                },
            }
        }
        if spine_min < u32::MAX {
            let done = Arc::new(left.restamped(spine_min, left.stop_lbp, min_prec));
            proof {
                lemma_restamp(left@, done@);
                lemma_levelled_kids(left@, done@);
                lemma_inner_same(&*left, &*done);
                lemma_rebuilt(self.cached(), &*left, &*done, lo, self.ids.next);
            }
            left = done;
        } else {
            proof {
                lemma_rebuilt(self.cached(), &*left, &*left, lo, self.ids.next);
            }
        }
        proof {
            lemma_inner(&*left);
        }
        Ok(left)
    }

    /// Parse an operand: an atom, a prefix operator or a parenthesis.
    #[verifier::rlimit(50)]
    fn nud(&mut self, start_byte: u32) -> (r: Result<Arc<Node>, ParseError>)
        requires
            old(self).inv(),
            start_byte == old(self).toks()[old(self).pos as int].start,
        ensures
            final(self).inv(),
            final(self).same(old(self)),
            match nud_at(old(self).toks(), old(self).pos as int) {
                Out::Done(f, q) => {
                    &&& r matches Ok(n)
                    &&& forall|m: int, w: bool|
                        #[trigger]
                        tree_ok(old(self).toks(), old(self).reuse is Some, old(self).strict(), old(self).even(), old(self).pos as int, *n, f, m, w)
                    &&& built(old(self).cached(), &*n, old(self).ids.next, final(self).ids.next)
                    &&& old(self).world().kept_operand(old(self).pos as int).subset_of(inner(&*n))
                    &&& final(self).pos == q
                    &&& final(self).stack@ == old(self).stack@
                    &&& final(self).stats == old(self).world().counted_operand(
                        old(self).pos as int,
                        old(self).stats,
                    )
                },
                Out::Fail(e) => {
                    &&& r == Result::<Arc<Node>, ParseError>::Err(e)
                    &&& final(self).stack@ == stack_after(
                        old(self).tracking,
                        old(self).stack@,
                        ctx_nud(old(self).toks(), old(self).pos as int),
                    )
                },
            },
        decreases old(self).tokens@.len() - old(self).pos, 0int, 0int,
    {
        let ghost a = self.toks();
        let ghost p = self.pos as int;
        let ghost stack0 = self.stack@;
        let ghost lo = self.ids.next;
        proof {
            lemma_lex_toks(self.src.spec_bytes());
            lemma_nud(a, p);
            self.world().lemma_counted_operand(p, self.stats);
            self.world().lemma_kept_operand(p);
        }
        let t = self.peek();
        if !is_prefix(t.kind) {
            proof {
                assert(stack0 + ctx_nud(a, p) =~= stack0);
            }
            return if t.kind == TokenKind::Eof {
                Err(ParseError::UnexpectedEof)
            } else {
                Err(ParseError::UnexpectedToken { kind: t.kind, at: t.start })
            };
        }
        self.on_parsed();
        match t.kind {
            TokenKind::Int | TokenKind::Ident => {
                let text = self.text_at(self.pos);
                self.advance();
                let n = self.finish(NodeKind::Atom(text), start_byte, u32::MAX, 0);
                proof {
                    lemma_build(self.cached(), &*n, lo, lo, self.ids.next);
                }
                Ok(n)
            },
            TokenKind::LParen => {
                let opener: usize = self.pos;
                self.advance();
                self.open_ctx(Ctx::Group { opener, awaits: TokenKind::RParen });
                let ghost stack1 = self.stack@;
                proof {
                    lemma_parse(a, p + 1, 0);
                }
                let inner = match self.parse_expr(MIN_PREC) {
                    Ok(n) => n,
                    Err(e) => {
                        proof {
                            if old(self).tracking {
                                assert(self.stack@ =~= stack0 + ctx_nud(a, p));
                            }
                        }
                        return Err(e);
                    },
                };
                let close = self.peek();
                if close.kind != TokenKind::RParen {
                    proof {
                        if old(self).tracking {
                            assert(self.stack@ =~= stack0 + ctx_nud(a, p));
                        }
                    }
                    return Err(ParseError::MissingRParen { at: close.start });
                }
                self.advance();
                self.close_ctx();
                proof {
                    if old(self).tracking {
                        assert(self.stack@ =~= stack0);
                    }
                }
                let ghost mid = self.ids.next;
                let n = self.finish(NodeKind::Paren { inner }, start_byte, u32::MAX, 0);
                proof {
                    lemma_kid(&*n, &*inner);
                    lemma_build(self.cached(), &*n, lo, mid, self.ids.next);
                }
                Ok(n)
            },
            _ => {
                self.advance();
                let child_min_prec: u32 = prefix_rbp(t.kind);
                proof {
                    lemma_parse(a, p + 1, child_min_prec as int);
                }
                let child = match self.parse_expr(child_min_prec) {
                    Ok(n) => n,
                    Err(e) => {
                        return Err(e);
                    },
                };
                let ghost mid = self.ids.next;
                let n = self.finish(
                    NodeKind::Prefix { op: t.kind, child },
                    start_byte,
                    u32::MAX,
                    child_min_prec,
                );
                proof {
                    lemma_kid(&*n, &*child);
                    lemma_build(self.cached(), &*n, lo, mid, self.ids.next);
                }
                Ok(n)
            },
        }
    }

    /// Absorb a ternary or a plain infix operator.
    fn led(
        &mut self,
        left: Arc<Node>,
        outer_start: u32,
        outer_min_prec: u32,
        outer_spine_min: u32,
        Ghost(p): Ghost<int>,
        Ghost(lo): Ghost<u64>,
    ) -> (r: Result<Arc<Node>, ParseError>)
        requires
            old(self).inv(),
            0 <= p < old(self).pos,
            outer_start == old(self).toks()[p].start,
            state_ok(old(self).toks(), p, norm(left@), norm(left@).m_spine, old(self).pos as int),
            fits(old(self).toks(), p, left@),
            left.weighted(),
            outer_spine_min == lb(old(self).toks(), old(self).pos as int),
            outer_min_prec < outer_spine_min,
            outer_spine_min > 0,
            !postfix_kind(old(self).toks()[old(self).pos as int].kind),
            !chain_kind(old(self).toks()[old(self).pos as int].kind),
            old(self).reuse is None ==> canon(left@, outer_min_prec as int, false),
            old(self).strict() ==> grouped(left@),
            old(self).even() ==> levelled(left@),
            lo <= old(self).ids.next,
            minted(old(self).cached(), &*left, lo, old(self).ids.next),
        ensures
            final(self).inv(),
            final(self).same(old(self)),
            match step_at(
                old(self).toks(),
                p,
                norm(left@),
                lb(old(self).toks(), old(self).pos as int),
                old(self).pos as int,
            ) {
                Out::Done(f, q) => {
                    &&& r matches Ok(n)
                    &&& tree_ok(old(self).toks(), old(self).reuse is Some, old(self).strict(), old(self).even(), p, *n, f, outer_min_prec as int, false)
                    &&& !is_operand(n@)
                    &&& built(old(self).cached(), &*n, lo, final(self).ids.next)
                    &&& subtrees(&*left).union(
                        old(self).world().kept_step(old(self).pos as int),
                    ).subset_of(inner(&*n))
                    &&& final(self).pos == q
                    &&& final(self).stack@ == old(self).stack@
                    &&& final(self).stats == old(self).world().counted_step(
                        old(self).pos as int,
                        old(self).stats,
                    )
                },
                Out::Fail(e) => {
                    &&& r == Result::<Arc<Node>, ParseError>::Err(e)
                    &&& final(self).stack@ == stack_after(
                        old(self).tracking,
                        old(self).stack@,
                        ctx_step(old(self).toks(), old(self).pos as int),
                    )
                },
            },
        decreases old(self).tokens@.len() - old(self).pos, 0int, 1int,
    {
        if self.peek().kind == TokenKind::Question {
            self.led_ternary(left, outer_start, outer_min_prec, outer_spine_min, Ghost(p), Ghost(lo))
        } else {
            self.led_infix(left, outer_start, outer_min_prec, outer_spine_min, Ghost(p), Ghost(lo))
        }
    }

    /// Absorb a conditional `cond ? then : else`.
    #[verifier::rlimit(50)]
    fn led_ternary(
        &mut self,
        left: Arc<Node>,
        outer_start: u32,
        outer_min_prec: u32,
        outer_spine_min: u32,
        Ghost(p): Ghost<int>,
        Ghost(lo): Ghost<u64>,
    ) -> (r: Result<Arc<Node>, ParseError>)
        requires
            old(self).inv(),
            0 <= p < old(self).pos,
            outer_start == old(self).toks()[p].start,
            state_ok(old(self).toks(), p, norm(left@), norm(left@).m_spine, old(self).pos as int),
            fits(old(self).toks(), p, left@),
            left.weighted(),
            outer_spine_min == lb(old(self).toks(), old(self).pos as int),
            outer_min_prec < outer_spine_min,
            outer_spine_min > 0,
            old(self).toks()[old(self).pos as int].kind == TokenKind::Question,
            old(self).reuse is None ==> canon(left@, outer_min_prec as int, false),
            old(self).strict() ==> grouped(left@),
            old(self).even() ==> levelled(left@),
            lo <= old(self).ids.next,
            minted(old(self).cached(), &*left, lo, old(self).ids.next),
        ensures
            final(self).inv(),
            final(self).same(old(self)),
            match step_at(
                old(self).toks(),
                p,
                norm(left@),
                lb(old(self).toks(), old(self).pos as int),
                old(self).pos as int,
            ) {
                Out::Done(f, q) => {
                    &&& r matches Ok(n)
                    &&& tree_ok(old(self).toks(), old(self).reuse is Some, old(self).strict(), old(self).even(), p, *n, f, outer_min_prec as int, false)
                    &&& !is_operand(n@)
                    &&& built(old(self).cached(), &*n, lo, final(self).ids.next)
                    &&& subtrees(&*left).union(
                        old(self).world().kept_step(old(self).pos as int),
                    ).subset_of(inner(&*n))
                    &&& final(self).pos == q
                    &&& final(self).stack@ == old(self).stack@
                    &&& final(self).stats == old(self).world().counted_step(
                        old(self).pos as int,
                        old(self).stats,
                    )
                },
                Out::Fail(e) => {
                    &&& r == Result::<Arc<Node>, ParseError>::Err(e)
                    &&& final(self).stack@ == stack_after(
                        old(self).tracking,
                        old(self).stack@,
                        ctx_step(old(self).toks(), old(self).pos as int),
                    )
                },
            },
        decreases old(self).tokens@.len() - old(self).pos, 0int, 0int,
    {
        let ghost a = self.toks();
        let ghost q = self.pos as int;
        let ghost stack0 = self.stack@;
        let ghost lf = norm(left@);
        proof {
            lemma_lex_toks(self.src.spec_bytes());
            lemma_step(a, p, lf, lf.m_spine, q);
            self.world().lemma_counted_step(q, self.stats);
            self.world().lemma_kept_step(q);
        }
        self.on_parsed();
        self.advance();
        proof {
            lemma_parse(a, q + 1, 0);
        }
        let then = match self.parse_expr(MIN_PREC) {
            Ok(n) => n,
            Err(e) => {
                return Err(e);
            },
        };
        let ghost m2 = self.ids.next;
        let colon = self.peek();
        if colon.kind != TokenKind::Colon {
            proof {
                assert(stack0 + ctx_step(a, q) =~= stack0);
            }
            return Err(ParseError::MissingColon { at: colon.start });
        }
        self.advance();
        proof {
            lemma_parse(a, self.pos as int, rbp_of(TokenKind::Question) as int);
        }
        let else_ = match self.parse_expr(rbp(TokenKind::Question)) {
            Ok(n) => n,
            Err(e) => {
                return Err(e);
            },
        };
        let ghost m3 = self.ids.next;
        let n = self.finish(
            NodeKind::Ternary { cond: left, then, else_ },
            outer_start,
            outer_spine_min,
            outer_min_prec,
        );
        proof {
            let c = self.cached();
            let m1 = old(self).ids.next;
            lemma_apart(c, &*left, &*then, lo, m1, m2);
            lemma_range(c, &*left, lo, m1, lo, m2);
            lemma_apart(c, &*left, &*else_, lo, m2, m3);
            lemma_range(c, &*then, m1, m2, lo, m2);
            lemma_apart(c, &*then, &*else_, lo, m2, m3);
            lemma_range(c, &*left, lo, m2, lo, m3);
            lemma_range(c, &*then, lo, m2, lo, m3);
            lemma_range(c, &*else_, m2, m3, lo, m3);
            lemma_kid(&*n, &*left);
            lemma_kid(&*n, &*then);
            lemma_kid(&*n, &*else_);
            lemma_build(c, &*n, lo, m3, self.ids.next);
        }
        Ok(n)
    }

    /// Absorb a plain infix operator.
    #[verifier::rlimit(50)]
    fn led_infix(
        &mut self,
        left: Arc<Node>,
        outer_start: u32,
        outer_min_prec: u32,
        outer_spine_min: u32,
        Ghost(p): Ghost<int>,
        Ghost(lo): Ghost<u64>,
    ) -> (r: Result<Arc<Node>, ParseError>)
        requires
            old(self).inv(),
            0 <= p < old(self).pos,
            outer_start == old(self).toks()[p].start,
            state_ok(old(self).toks(), p, norm(left@), norm(left@).m_spine, old(self).pos as int),
            fits(old(self).toks(), p, left@),
            left.weighted(),
            outer_spine_min == lb(old(self).toks(), old(self).pos as int),
            outer_min_prec < outer_spine_min,
            outer_spine_min > 0,
            !postfix_kind(old(self).toks()[old(self).pos as int].kind),
            old(self).toks()[old(self).pos as int].kind != TokenKind::Question,
            !chain_kind(old(self).toks()[old(self).pos as int].kind),
            old(self).reuse is None ==> canon(left@, outer_min_prec as int, false),
            old(self).strict() ==> grouped(left@),
            old(self).even() ==> levelled(left@),
            lo <= old(self).ids.next,
            minted(old(self).cached(), &*left, lo, old(self).ids.next),
        ensures
            final(self).inv(),
            final(self).same(old(self)),
            match step_at(
                old(self).toks(),
                p,
                norm(left@),
                lb(old(self).toks(), old(self).pos as int),
                old(self).pos as int,
            ) {
                Out::Done(f, q) => {
                    &&& r matches Ok(n)
                    &&& tree_ok(old(self).toks(), old(self).reuse is Some, old(self).strict(), old(self).even(), p, *n, f, outer_min_prec as int, false)
                    &&& !is_operand(n@)
                    &&& built(old(self).cached(), &*n, lo, final(self).ids.next)
                    &&& subtrees(&*left).union(
                        old(self).world().kept_step(old(self).pos as int),
                    ).subset_of(inner(&*n))
                    &&& final(self).pos == q
                    &&& final(self).stack@ == old(self).stack@
                    &&& final(self).stats == old(self).world().counted_step(
                        old(self).pos as int,
                        old(self).stats,
                    )
                },
                Out::Fail(e) => {
                    &&& r == Result::<Arc<Node>, ParseError>::Err(e)
                    &&& final(self).stack@ == stack_after(
                        old(self).tracking,
                        old(self).stack@,
                        ctx_step(old(self).toks(), old(self).pos as int),
                    )
                },
            },
        decreases old(self).tokens@.len() - old(self).pos, 0int, 0int,
    {
        let ghost a = self.toks();
        let ghost q = self.pos as int;
        let ghost stack0 = self.stack@;
        let ghost lf = norm(left@);
        proof {
            lemma_lex_toks(self.src.spec_bytes());
            lemma_step(a, p, lf, lf.m_spine, q);
            self.world().lemma_counted_step(q, self.stats);
            self.world().lemma_kept_step(q);
        }
        let op_kind = self.peek().kind;
        self.on_parsed();
        self.advance();
        proof {
            lemma_parse(a, q + 1, rbp_of(op_kind) as int);
        }
        let right = match self.parse_expr(rbp(op_kind)) {
            Ok(n) => n,
            Err(e) => {
                return Err(e);
            },
        };
        let ghost m2 = self.ids.next;
        let n = self.finish(
            NodeKind::Binary { op: op_kind, left, right },
            outer_start,
            outer_spine_min,
            outer_min_prec,
        );
        proof {
            let c = self.cached();
            let m1 = old(self).ids.next;
            lemma_apart(c, &*left, &*right, lo, m1, m2);
            lemma_range(c, &*left, lo, m1, lo, m2);
            lemma_range(c, &*right, m1, m2, lo, m2);
            lemma_kid(&*n, &*left);
            lemma_kid(&*n, &*right);
            lemma_build(c, &*n, lo, m2, self.ids.next);
        }
        Ok(n)
    }

    /// Absorb a chain of one associativity-conflict operator, balanced.
    #[verifier::rlimit(50)]
    fn parse_assoc_chain(
        &mut self,
        left: Arc<Node>,
        chain_op: TokenKind,
        outer_start: u32,
        Ghost(p): Ghost<int>,
        Ghost(m): Ghost<int>,
        Ghost(lo): Ghost<u64>,
    ) -> (r: Result<Arc<Node>, ParseError>)
        requires
            old(self).inv(),
            0 <= p < old(self).pos,
            outer_start == old(self).toks()[p].start,
            state_ok(old(self).toks(), p, norm(left@), norm(left@).m_spine, old(self).pos as int),
            fits(old(self).toks(), p, left@),
            left.weighted(),
            chain_op == old(self).toks()[old(self).pos as int].kind,
            chain_kind(chain_op),
            old(self).reuse is None ==> canon(left@, m, false),
            old(self).strict() ==> grouped(left@),
            old(self).even() ==> levelled(left@),
            lo <= old(self).ids.next,
            minted(old(self).cached(), &*left, lo, old(self).ids.next),
        ensures
            final(self).inv(),
            final(self).same(old(self)),
            match step_at(
                old(self).toks(),
                p,
                norm(left@),
                lb(old(self).toks(), old(self).pos as int),
                old(self).pos as int,
            ) {
                Out::Done(f, q) => {
                    &&& r matches Ok(n)
                    &&& tree_ok(old(self).toks(), old(self).reuse is Some, old(self).strict(), old(self).even(), p, *n, f, m, false)
                    &&& !is_operand(n@)
                    &&& built(old(self).cached(), &*n, lo, final(self).ids.next)
                    &&& subtrees(&*left).union(
                        old(self).world().kept_step(old(self).pos as int),
                    ).subset_of(inner(&*n))
                    &&& final(self).pos == q
                    &&& final(self).stack@ == old(self).stack@
                    &&& final(self).stats == old(self).world().counted_step(
                        old(self).pos as int,
                        old(self).stats,
                    )
                },
                Out::Fail(e) => {
                    &&& r == Result::<Arc<Node>, ParseError>::Err(e)
                    &&& final(self).stack@ == stack_after(
                        old(self).tracking,
                        old(self).stack@,
                        ctx_step(old(self).toks(), old(self).pos as int),
                    )
                },
            },
        decreases old(self).tokens@.len() - old(self).pos, 0int, 0int,
    {
        let ghost a = self.toks();
        let ghost q = self.pos as int;
        let ghost stack0 = self.stack@;
        let ghost lf = norm(left@);
        proof {
            lemma_lex_toks(self.src.spec_bytes());
            lemma_step(a, p, lf, lf.m_spine, q);
            self.world().lemma_counted_step(q, self.stats);
            self.world().lemma_kept_step(q);
        }
        let chain_lbp: u32 = lbp(chain_op);
        let ghost acc = seq![lf];
        let mut operands: Vec<ChainOperand> = Vec::new();
        operands.push(ChainOperand { start_byte: outer_start, node: left });
        self.advance();
        proof {
            assert(lt(acc, 0) == 0);
            assert(lt(acc, 1) == nt(lf) + 1);
            assert(listed(a, p, acc));
            assert(nodes_ok(a, p, acc, operands@));
            lemma_all_single(self.cached(), operands@[0], lo, self.ids.next);
            assert(operands@ =~= seq![operands@[0]]);
            lemma_list(a, p, q + 1, chain_op, rbp_of(chain_op) as int, acc);
        }
        let all = match self.parse_list(
            chain_op,
            rbp(chain_op),
            operands,
            Ghost(p),
            Ghost(acc),
            Ghost(lo),
        ) {
            Ok(v) => v,
            Err(e) => {
                return Err(e);
            },
        };
        let n: usize = all.len();
        let ghost fs = list_at(a, q + 1, chain_op, rbp_of(chain_op) as int, acc)->Done_0;
        proof {
            assert(fs[0] == acc[0]);
            assert forall|k: int| 0 <= k < all@.len() implies !is_bin(
                (#[trigger] all@[k]).node@,
                chain_op,
            ) by {
                assert(norm(all@[k].node@) == fs[k]);
                if k > 0 {
                    assert(placed(a, at(p, fs, k), fs[k], at(p, fs, k) + nt(fs[k])));
                    assert(fs[k].m_spine > lbp_of(chain_op));
                    assert(form_ok(fs[k]));
                }
            }
            if self.reuse is None {
                assert forall|k: int| 0 <= k < all@.len() implies canon_part(
                    (#[trigger] all@[k]).node@,
                    chain_op,
                    m,
                    k == 0,
                ) by {
                    if k == 0 {
                        assert(all@[0] == operands@[0]);
                    }
                }
            }
            if self.strict() {
                assert forall|k: int| 0 <= k < all@.len() implies grouped(
                    (#[trigger] all@[k]).node@,
                ) by {
                    if k == 0 {
                        assert(all@[0] == operands@[0]);
                    }
                }
            }
            if self.even() {
                assert forall|k: int| 0 <= k < all@.len() implies levelled(
                    (#[trigger] all@[k]).node@,
                ) by {
                    if k == 0 {
                        assert(all@[0] == operands@[0]);
                    }
                }
            }
        }
        let ghost cache = self.cached();
        let r = build_balanced(
            &mut self.ids,
            chain_op,
            &all,
            0,
            n,
            chain_lbp,
            Ghost(a),
            Ghost(p),
            Ghost(fs),
            Ghost(m),
            Ghost(cache),
            Ghost(lo),
        );
        proof {
            assert(fs.subrange(0, n as int) =~= fs);
            assert(at(p, fs, 0) == p);
            lemma_part_tokens(r@, chain_op, fs, 0, n as int);
            assert(norm(r@) == chain_form(a, p, chain_op, fs, self.pos as int));
            assert(all@[0] == operands@[0]);
            lemma_among_first(all@, 0, 0, n as int);
            lemma_among_more(all@, 1, 0, n as int);
        }
        Ok(r)
    }

    /// Absorb a call, an index or a member access.
    fn parse_postfix(
        &mut self,
        left: Arc<Node>,
        outer_start: u32,
        outer_min_prec: u32,
        outer_spine_min: u32,
        Ghost(p): Ghost<int>,
        Ghost(lo): Ghost<u64>,
    ) -> (r: Result<Arc<Node>, ParseError>)
        requires
            old(self).inv(),
            0 <= p < old(self).pos,
            outer_start == old(self).toks()[p].start,
            state_ok(old(self).toks(), p, norm(left@), norm(left@).m_spine, old(self).pos as int),
            fits(old(self).toks(), p, left@),
            left.weighted(),
            outer_spine_min == lb(old(self).toks(), old(self).pos as int),
            outer_min_prec < outer_spine_min,
            postfix_kind(old(self).toks()[old(self).pos as int].kind),
            old(self).reuse is None ==> canon(left@, outer_min_prec as int, false),
            old(self).strict() ==> grouped(left@),
            old(self).even() ==> levelled(left@),
            lo <= old(self).ids.next,
            minted(old(self).cached(), &*left, lo, old(self).ids.next),
        ensures
            final(self).inv(),
            final(self).same(old(self)),
            match step_at(
                old(self).toks(),
                p,
                norm(left@),
                lb(old(self).toks(), old(self).pos as int),
                old(self).pos as int,
            ) {
                Out::Done(f, q) => {
                    &&& r matches Ok(n)
                    &&& tree_ok(old(self).toks(), old(self).reuse is Some, old(self).strict(), old(self).even(), p, *n, f, outer_min_prec as int, false)
                    &&& !is_operand(n@)
                    &&& built(old(self).cached(), &*n, lo, final(self).ids.next)
                    &&& subtrees(&*left).union(
                        old(self).world().kept_step(old(self).pos as int),
                    ).subset_of(inner(&*n))
                    &&& final(self).pos == q
                    &&& final(self).stack@ == old(self).stack@
                    &&& final(self).stats == old(self).world().counted_step(
                        old(self).pos as int,
                        old(self).stats,
                    )
                },
                Out::Fail(e) => {
                    &&& r == Result::<Arc<Node>, ParseError>::Err(e)
                    &&& final(self).stack@ == stack_after(
                        old(self).tracking,
                        old(self).stack@,
                        ctx_step(old(self).toks(), old(self).pos as int),
                    )
                },
            },
        decreases old(self).tokens@.len() - old(self).pos, 0int, 1int,
    {
        match self.peek().kind {
            TokenKind::LParen => self.parse_call(left, outer_start, outer_min_prec, outer_spine_min, Ghost(p), Ghost(lo)),
            TokenKind::LBracket => self.parse_index(left, outer_start, outer_min_prec, outer_spine_min, Ghost(p), Ghost(lo)),
            _ => self.parse_member(left, outer_start, outer_min_prec, outer_spine_min, Ghost(p), Ghost(lo)),
        }
    }

    /// Absorb a call `callee(args)`.
    #[verifier::spinoff_prover]
    #[verifier::rlimit(100)]
    fn parse_call(
        &mut self,
        left: Arc<Node>,
        outer_start: u32,
        outer_min_prec: u32,
        outer_spine_min: u32,
        Ghost(p): Ghost<int>,
        Ghost(lo): Ghost<u64>,
    ) -> (r: Result<Arc<Node>, ParseError>)
        requires
            old(self).inv(),
            0 <= p < old(self).pos,
            outer_start == old(self).toks()[p].start,
            state_ok(old(self).toks(), p, norm(left@), norm(left@).m_spine, old(self).pos as int),
            fits(old(self).toks(), p, left@),
            left.weighted(),
            outer_spine_min == lb(old(self).toks(), old(self).pos as int),
            outer_min_prec < outer_spine_min,
            outer_spine_min > 0,
            old(self).toks()[old(self).pos as int].kind == TokenKind::LParen,
            old(self).reuse is None ==> canon(left@, outer_min_prec as int, false),
            old(self).strict() ==> grouped(left@),
            old(self).even() ==> levelled(left@),
            lo <= old(self).ids.next,
            minted(old(self).cached(), &*left, lo, old(self).ids.next),
        ensures
            final(self).inv(),
            final(self).same(old(self)),
            match step_at(
                old(self).toks(),
                p,
                norm(left@),
                lb(old(self).toks(), old(self).pos as int),
                old(self).pos as int,
            ) {
                Out::Done(f, q) => {
                    &&& r matches Ok(n)
                    &&& tree_ok(old(self).toks(), old(self).reuse is Some, old(self).strict(), old(self).even(), p, *n, f, outer_min_prec as int, false)
                    &&& !is_operand(n@)
                    &&& built(old(self).cached(), &*n, lo, final(self).ids.next)
                    &&& subtrees(&*left).union(
                        old(self).world().kept_step(old(self).pos as int),
                    ).subset_of(inner(&*n))
                    &&& final(self).pos == q
                    &&& final(self).stack@ == old(self).stack@
                    &&& final(self).stats == old(self).world().counted_step(
                        old(self).pos as int,
                        old(self).stats,
                    )
                },
                Out::Fail(e) => {
                    &&& r == Result::<Arc<Node>, ParseError>::Err(e)
                    &&& final(self).stack@ == stack_after(
                        old(self).tracking,
                        old(self).stack@,
                        ctx_step(old(self).toks(), old(self).pos as int),
                    )
                },
            },
        decreases old(self).tokens@.len() - old(self).pos, 0int, 0int,
    {
        let ghost a = self.toks();
        let ghost q = self.pos as int;
        let ghost stack0 = self.stack@;
        let ghost lf = norm(left@);
        proof {
            lemma_lex_toks(self.src.spec_bytes());
            lemma_step(a, p, lf, lf.m_spine, q);
            self.world().lemma_counted_step(q, self.stats);
            self.world().lemma_kept_step(q);
        }
        let op_tok: usize = self.pos;
        self.advance();
        self.on_parsed();
        self.open_ctx(Ctx::Group { opener: op_tok, awaits: TokenKind::RParen });
        proof {
            lemma_list(a, q + 1, q + 1, TokenKind::Comma, 0, Seq::empty());
        }
        let args = match self.parse_args() {
            Ok(v) => v,
            Err(e) => {
                proof {
                    if old(self).tracking {
                        assert(self.stack@ =~= stack0 + ctx_step(a, q));
                    }
                }
                return Err(e);
            },
        };
        let close = self.peek();
        if close.kind != TokenKind::RParen {
            proof {
                if old(self).tracking {
                    lemma_ctx_list_done(a, q + 1, TokenKind::Comma, 0, Seq::empty());
                    assert(self.stack@ =~= stack0 + ctx_step(a, q));
                }
            }
            return Err(ParseError::MissingRParen { at: close.start });
        }
        self.advance();
        self.close_ctx();
        proof {
            if old(self).tracking {
                assert(self.stack@ =~= stack0);
            }
        }
        let ghost given = args@;
        let ghost m2 = self.ids.next;
        let n = self.finish(
            NodeKind::Call { callee: left, args },
            outer_start,
            outer_spine_min,
            outer_min_prec,
        );
        proof {
            let f = step_at(a, p, lf, lb(a, q), q)->Done_0;
            let fs = if a[q + 1].kind == TokenKind::RParen {
                Seq::empty()
            } else {
                list_at(a, q + 1, TokenKind::Comma, 0, Seq::empty())->Done_0
            };
            if a[q + 1].kind == TokenKind::RParen {
                assert(norms(shapes(given)) =~= fs);
            }
            lemma_call_ok(
                a,
                old(self).reuse is Some,
                old(self).strict(),
                old(self).even(),
                p,
                q,
                fs,
                n,
                f,
                outer_min_prec as int,
            );
            let c = self.cached();
            let m1 = old(self).ids.next;
            assert forall|i: int| 0 <= i < given.len() implies {
                &&& minted(c, &*(#[trigger] given[i]), lo, m2)
                &&& apart(c, &*left, &*given[i])
            } by {
                lemma_apart(c, &*left, &*given[i], lo, m1, m2);
                lemma_range(c, &*given[i], m1, m2, lo, m2);
            }
            lemma_range(c, &*left, lo, m1, lo, m2);
            lemma_kid(&*n, &*left);
            lemma_args(&*n, given);
            lemma_build(c, &*n, lo, m2, self.ids.next);
        }
        Ok(n)
    }

    /// Parse the arguments of a call, up to the closing parenthesis.
    fn parse_args(&mut self) -> (r: Result<Vec<Arc<Node>>, ParseError>)
        requires
            old(self).inv(),
        ensures
            final(self).inv(),
            final(self).same(old(self)),
            old(self).toks()[old(self).pos as int].kind == TokenKind::RParen ==> {
                &&& r matches Ok(v)
                &&& v@.len() == 0
                &&& final(self).pos == old(self).pos
                &&& final(self).stack@ == old(self).stack@
                &&& final(self).stats == old(self).stats
                &&& final(self).ids == old(self).ids
            },
            old(self).toks()[old(self).pos as int].kind != TokenKind::RParen ==> match list_at(
                old(self).toks(),
                old(self).pos as int,
                TokenKind::Comma,
                0,
                Seq::empty(),
            ) {
                OutSeq::Done(fs, q) => {
                    &&& r matches Ok(v)
                    &&& args_ok(
                        old(self).toks(),
                        old(self).reuse is Some, old(self).strict(),
                        old(self).even(),
                        old(self).pos as int,
                        fs,
                        v@,
                    )
                    &&& forall|k: int|
                        0 <= k < v@.len() ==> minted(
                            old(self).cached(),
                            &*(#[trigger] v@[k]),
                            old(self).ids.next,
                            final(self).ids.next,
                        )
                    &&& forall|j: int, k: int|
                        0 <= j < k < v@.len() ==> apart(
                            old(self).cached(),
                            &*(#[trigger] v@[j]),
                            &*(#[trigger] v@[k]),
                        )
                    &&& old(self).world().kept_list(
                        old(self).pos as int,
                        TokenKind::Comma,
                        0,
                    ).subset_of(subtrees_in(v@))
                    &&& final(self).pos == q
                    &&& final(self).stack@ == old(self).stack@
                    &&& final(self).stats == old(self).world().counted_list(
                        old(self).pos as int,
                        TokenKind::Comma,
                        0,
                        old(self).stats,
                    )
                },
                OutSeq::Fail(e) => {
                    &&& r == Result::<Vec<Arc<Node>>, ParseError>::Err(e)
                    &&& final(self).stack@ == stack_after(
                        old(self).tracking,
                        old(self).stack@,
                        ctx_list(old(self).toks(), old(self).pos as int, TokenKind::Comma, 0),
                    )
                },
            },
        decreases old(self).tokens@.len() - old(self).pos, 102int, 0int,
    {
        let ghost a = self.toks();
        let ghost q = self.pos as int;
        let none: Vec<ChainOperand> = Vec::new();
        if self.peek().kind == TokenKind::RParen {
            return Ok(Vec::new());
        }
        let ghost acc = Seq::<Form>::empty();
        let ghost lo = self.ids.next;
        proof {
            lemma_all_none(self.cached(), lo, lo);
            assert(none@ =~= Seq::empty());
        }
        let ops = match self.parse_list(TokenKind::Comma, MIN_PREC, none, Ghost(q), Ghost(acc), Ghost(lo)) {
            Ok(v) => v,
            Err(e) => {
                return Err(e);
            },
        };
        let args = nodes_of(&ops);
        proof {
            reveal(all_minted);
            let fs = list_at(a, q, TokenKind::Comma, 0, acc)->Done_0;
            assert(norms(shapes(args@)) =~= fs) by {
                assert forall|k: int| 0 <= k < fs.len() implies norms(shapes(args@))[k] == fs[k] by {
                    assert(norm(ops@[k].node@) == fs[k]);
                }
            }
            assert forall|k: int| 0 <= k < args@.len() implies {
                &&& fits(a, at(q, fs, k), (#[trigger] args@[k])@)
                &&& args@[k].weighted()
                &&& old(self).reuse is None ==> canon(args@[k]@, 0, true)
                &&& old(self).strict() ==> grouped(args@[k]@)
                &&& old(self).even() ==> levelled(args@[k]@)
            } by {
                assert(args@[k] == ops@[k].node);
                assert(fits(a, at(q, fs, k), ops@[k].node@));
            }
            lemma_among_all(ops@, args@);
        }
        Ok(args)
    }

    /// Absorb an index `array[index]`.
    #[verifier::rlimit(50)]
    fn parse_index(
        &mut self,
        left: Arc<Node>,
        outer_start: u32,
        outer_min_prec: u32,
        outer_spine_min: u32,
        Ghost(p): Ghost<int>,
        Ghost(lo): Ghost<u64>,
    ) -> (r: Result<Arc<Node>, ParseError>)
        requires
            old(self).inv(),
            0 <= p < old(self).pos,
            outer_start == old(self).toks()[p].start,
            state_ok(old(self).toks(), p, norm(left@), norm(left@).m_spine, old(self).pos as int),
            fits(old(self).toks(), p, left@),
            left.weighted(),
            outer_spine_min == lb(old(self).toks(), old(self).pos as int),
            outer_min_prec < outer_spine_min,
            outer_spine_min > 0,
            old(self).toks()[old(self).pos as int].kind == TokenKind::LBracket,
            old(self).reuse is None ==> canon(left@, outer_min_prec as int, false),
            old(self).strict() ==> grouped(left@),
            old(self).even() ==> levelled(left@),
            lo <= old(self).ids.next,
            minted(old(self).cached(), &*left, lo, old(self).ids.next),
        ensures
            final(self).inv(),
            final(self).same(old(self)),
            match step_at(
                old(self).toks(),
                p,
                norm(left@),
                lb(old(self).toks(), old(self).pos as int),
                old(self).pos as int,
            ) {
                Out::Done(f, q) => {
                    &&& r matches Ok(n)
                    &&& tree_ok(old(self).toks(), old(self).reuse is Some, old(self).strict(), old(self).even(), p, *n, f, outer_min_prec as int, false)
                    &&& !is_operand(n@)
                    &&& built(old(self).cached(), &*n, lo, final(self).ids.next)
                    &&& subtrees(&*left).union(
                        old(self).world().kept_step(old(self).pos as int),
                    ).subset_of(inner(&*n))
                    &&& final(self).pos == q
                    &&& final(self).stack@ == old(self).stack@
                    &&& final(self).stats == old(self).world().counted_step(
                        old(self).pos as int,
                        old(self).stats,
                    )
                },
                Out::Fail(e) => {
                    &&& r == Result::<Arc<Node>, ParseError>::Err(e)
                    &&& final(self).stack@ == stack_after(
                        old(self).tracking,
                        old(self).stack@,
                        ctx_step(old(self).toks(), old(self).pos as int),
                    )
                },
            },
        decreases old(self).tokens@.len() - old(self).pos, 0int, 0int,
    {
        let ghost a = self.toks();
        let ghost q = self.pos as int;
        let ghost stack0 = self.stack@;
        let ghost lf = norm(left@);
        proof {
            lemma_lex_toks(self.src.spec_bytes());
            lemma_step(a, p, lf, lf.m_spine, q);
            self.world().lemma_counted_step(q, self.stats);
            self.world().lemma_kept_step(q);
        }
        let op_tok: usize = self.pos;
        self.advance();
        self.on_parsed();
        self.open_ctx(Ctx::Group { opener: op_tok, awaits: TokenKind::RBracket });
        proof {
            lemma_parse(a, q + 1, 0);
        }
        let index = match self.parse_expr(MIN_PREC) {
            Ok(n) => n,
            Err(e) => {
                proof {
                    if old(self).tracking {
                        assert(self.stack@ =~= stack0 + ctx_step(a, q));
                    }
                }
                return Err(e);
            },
        };
        let close = self.peek();
        if close.kind != TokenKind::RBracket {
            proof {
                if old(self).tracking {
                    assert(self.stack@ =~= stack0 + ctx_step(a, q));
                }
            }
            return Err(ParseError::MissingRBracket { at: close.start });
        }
        self.advance();
        self.close_ctx();
        proof {
            if old(self).tracking {
                assert(self.stack@ =~= stack0);
            }
        }
        let ghost m2 = self.ids.next;
        let n = self.finish(NodeKind::Index { array: left, index }, outer_start, outer_spine_min, outer_min_prec);
        proof {
            let c = self.cached();
            let m1 = old(self).ids.next;
            lemma_apart(c, &*left, &*index, lo, m1, m2);
            lemma_range(c, &*left, lo, m1, lo, m2);
            lemma_range(c, &*index, m1, m2, lo, m2);
            lemma_kid(&*n, &*left);
            lemma_kid(&*n, &*index);
            lemma_build(c, &*n, lo, m2, self.ids.next);
        }
        Ok(n)
    }

    /// Absorb a member access `object.field`.
    #[verifier::rlimit(50)]
    fn parse_member(
        &mut self,
        left: Arc<Node>,
        outer_start: u32,
        outer_min_prec: u32,
        outer_spine_min: u32,
        Ghost(p): Ghost<int>,
        Ghost(lo): Ghost<u64>,
    ) -> (r: Result<Arc<Node>, ParseError>)
        requires
            old(self).inv(),
            0 <= p < old(self).pos,
            outer_start == old(self).toks()[p].start,
            state_ok(old(self).toks(), p, norm(left@), norm(left@).m_spine, old(self).pos as int),
            fits(old(self).toks(), p, left@),
            left.weighted(),
            outer_spine_min == lb(old(self).toks(), old(self).pos as int),
            outer_min_prec < outer_spine_min,
            outer_spine_min > 0,
            old(self).toks()[old(self).pos as int].kind == TokenKind::Dot,
            old(self).reuse is None ==> canon(left@, outer_min_prec as int, false),
            old(self).strict() ==> grouped(left@),
            old(self).even() ==> levelled(left@),
            lo <= old(self).ids.next,
            minted(old(self).cached(), &*left, lo, old(self).ids.next),
        ensures
            final(self).inv(),
            final(self).same(old(self)),
            match step_at(
                old(self).toks(),
                p,
                norm(left@),
                lb(old(self).toks(), old(self).pos as int),
                old(self).pos as int,
            ) {
                Out::Done(f, q) => {
                    &&& r matches Ok(n)
                    &&& tree_ok(old(self).toks(), old(self).reuse is Some, old(self).strict(), old(self).even(), p, *n, f, outer_min_prec as int, false)
                    &&& !is_operand(n@)
                    &&& built(old(self).cached(), &*n, lo, final(self).ids.next)
                    &&& subtrees(&*left).union(
                        old(self).world().kept_step(old(self).pos as int),
                    ).subset_of(inner(&*n))
                    &&& final(self).pos == q
                    &&& final(self).stack@ == old(self).stack@
                    &&& final(self).stats == old(self).world().counted_step(
                        old(self).pos as int,
                        old(self).stats,
                    )
                },
                Out::Fail(e) => {
                    &&& r == Result::<Arc<Node>, ParseError>::Err(e)
                    &&& final(self).stack@ == stack_after(
                        old(self).tracking,
                        old(self).stack@,
                        ctx_step(old(self).toks(), old(self).pos as int),
                    )
                },
            },
        decreases old(self).tokens@.len() - old(self).pos, 0int, 0int,
    {
        let ghost a = self.toks();
        let ghost q = self.pos as int;
        let ghost stack0 = self.stack@;
        let ghost lf = norm(left@);
        proof {
            lemma_lex_toks(self.src.spec_bytes());
            lemma_step(a, p, lf, lf.m_spine, q);
            self.world().lemma_counted_step(q, self.stats);
            self.world().lemma_kept_step(q);
        }
        self.advance();
        self.on_parsed();
        let field_tok = self.peek();
        if field_tok.kind != TokenKind::Ident {
            proof {
                assert(stack0 + ctx_step(a, q) =~= stack0);
            }
            return Err(ParseError::MissingMemberName { at: field_tok.start });
        }
        let field = self.text_at(self.pos);
        self.advance();
        let n = self.finish(NodeKind::Member { object: left, field }, outer_start, outer_spine_min, outer_min_prec);
        proof {
            lemma_build(self.cached(), &*n, lo, old(self).ids.next, self.ids.next);
            lemma_kid(&*n, &*left);
        }
        Ok(n)
    }

    /// Parse expressions at `m`, separated by `sep` tokens, after those in
    /// `acc`.
    #[verifier::rlimit(50)]
    fn parse_list(
        &mut self,
        sep: TokenKind,
        m: u32,
        acc: Vec<ChainOperand>,
        Ghost(p): Ghost<int>,
        Ghost(fs0): Ghost<Seq<Form>>,
        Ghost(lo): Ghost<u64>,
    ) -> (r: Result<Vec<ChainOperand>, ParseError>)
        requires
            old(self).inv(),
            m < u32::MAX,
            0 <= p,
            sep != TokenKind::Eof,
            old(self).pos == p + lt(fs0, fs0.len() as int),
            listed(old(self).toks(), p, fs0),
            nodes_ok(old(self).toks(), p, fs0, acc@),
            lo <= old(self).ids.next,
            all_minted(old(self).cached(), acc@, lo, old(self).ids.next),
        ensures
            final(self).inv(),
            final(self).same(old(self)),
            match list_at(old(self).toks(), old(self).pos as int, sep, m as int, fs0) {
                OutSeq::Done(fs, q) => {
                    &&& r matches Ok(v)
                    &&& nodes_ok(old(self).toks(), p, fs, v@)
                    &&& forall|k: int| 0 <= k < acc@.len() ==> #[trigger] v@[k] == acc@[k]
                    &&& old(self).reuse is None ==> forall|k: int|
                        acc@.len() <= k < v@.len() ==> canon(
                            (#[trigger] v@[k]).node@,
                            m as int,
                            true,
                        )
                    &&& old(self).strict() ==> forall|k: int|
                        acc@.len() <= k < v@.len() ==> grouped((#[trigger] v@[k]).node@)
                    &&& old(self).even() ==> forall|k: int|
                        acc@.len() <= k < v@.len() ==> levelled((#[trigger] v@[k]).node@)
                    &&& old(self).world().kept_list(
                        old(self).pos as int,
                        sep,
                        m as int,
                    ).subset_of(among(v@, acc@.len() as int, v@.len() as int))
                    &&& all_minted(old(self).cached(), v@, lo, final(self).ids.next)
                    &&& final(self).pos == q
                    &&& final(self).stack@ == old(self).stack@
                    &&& final(self).stats == old(self).world().counted_list(
                        old(self).pos as int,
                        sep,
                        m as int,
                        old(self).stats,
                    )
                },
                OutSeq::Fail(e) => {
                    &&& r == Result::<Vec<ChainOperand>, ParseError>::Err(e)
                    &&& final(self).stack@ == stack_after(
                        old(self).tracking,
                        old(self).stack@,
                        ctx_list(old(self).toks(), old(self).pos as int, sep, m as int),
                    )
                },
            },
        decreases old(self).tokens@.len() - old(self).pos, 101int, 0int,
    {
        let ghost a = self.toks();
        let ghost q0 = self.pos as int;
        let ghost stack0 = self.stack@;
        let ghost mut fs = fs0;
        let mut out: Vec<ChainOperand> = acc;
        proof {
            lemma_lex_toks(self.src.spec_bytes());
        }
        loop
            invariant
                self.inv(),
                self.same(old(self)),
                a == self.toks(),
                a == old(self).toks(),
                toks_ok(a),
                m < u32::MAX,
                0 <= p,
                sep != TokenKind::Eof,
                old(self).pos <= self.pos,
                q0 == old(self).pos,
                stack0 == old(self).stack@,
                self.stack@ == stack0,
                self.pos == p + lt(fs, fs.len() as int),
                listed(a, p, fs),
                nodes_ok(a, p, fs, out@),
                out@.len() >= acc@.len(),
                forall|k: int| 0 <= k < acc@.len() ==> #[trigger] out@[k] == acc@[k],
                self.reuse is None ==> forall|k: int|
                    acc@.len() <= k < out@.len() ==> canon((#[trigger] out@[k]).node@, m as int, true),
                self.strict() ==> forall|k: int|
                    acc@.len() <= k < out@.len() ==> grouped((#[trigger] out@[k]).node@),
                self.even() ==> forall|k: int|
                    acc@.len() <= k < out@.len() ==> levelled((#[trigger] out@[k]).node@),
                self.world().kept_list(q0, sep, m as int).subset_of(
                    among(out@, acc@.len() as int, out@.len() as int).union(
                        self.world().kept_list(self.pos as int, sep, m as int),
                    ),
                ),
                lo <= self.ids.next,
                all_minted(self.cached(), out@, lo, self.ids.next),
                list_at(a, q0, sep, m as int, fs0) == list_at(a, self.pos as int, sep, m as int, fs),
                ctx_list(a, q0, sep, m as int) == ctx_list(a, self.pos as int, sep, m as int),
                old(self).world() == self.world(),
                self.world().counted_list(q0, sep, m as int, old(self).stats)
                    == self.world().counted_list(self.pos as int, sep, m as int, self.stats),
            decreases self.tokens@.len() - self.pos,
        {
            let ghost q = self.pos as int;
            let ghost before = out@;
            let ghost mid = self.ids.next;
            let start_byte: u32 = self.peek().start;
            proof {
                lemma_parse(a, q, m as int);
                self.world().lemma_counted_list(q, sep, m as int, self.stats);
                self.world().lemma_kept_list(q, sep, m as int);
            }
            let node = match self.parse_expr(m) {
                Ok(n) => n,
                Err(e) => {
                    return Err(e);
                },
            };
            let u = ChainOperand { start_byte, node: Arc::clone(&node) };
            proof {
                lemma_all_push(self.cached(), before, u, lo, mid, self.ids.next);
                lemma_among_push(before, u, acc@.len() as int);
            }
            out.push(u);
            proof {
                let f = norm(node@);
                lemma_listed_push(a, p, fs, f, q, self.pos as int);
                let next = fs.push(f);
                assert(at(p, next, fs.len() as int) == q);
                assert(nodes_ok(a, p, next, out@)) by {
                    assert forall|k: int| 0 <= k < out@.len() implies {
                        &&& (#[trigger] out@[k]).start_byte == a[at(p, next, k)].start
                        &&& norm(out@[k].node@) == next[k]
                        &&& fits(a, at(p, next, k), out@[k].node@)
                        &&& out@[k].node.weighted()
                    } by {
                        if k < before.len() {
                            assert(out@[k] == before[k]);
                            assert(at(p, next, k) == at(p, fs, k));
                        }
                    }
                }
                fs = next;
            }
            if self.peek().kind != sep {
                return Ok(out);
            }
            self.advance();
        }
    }
}

/// The nodes in `v` stand for the arguments `fs` that start at token `p`.
pub open spec fn args_ok(
    a: Seq<Tok>,
    reuses: bool,
    strict: bool,
    even: bool,
    p: int,
    fs: Seq<Form>,
    v: Seq<Arc<Node>>,
) -> bool {
    &&& norms(shapes(v)) == fs
    &&& forall|k: int|
        0 <= k < v.len() ==> {
            &&& fits(a, at(p, fs, k), (#[trigger] v[k])@)
            &&& v[k].weighted()
            &&& !reuses ==> canon(v[k]@, 0, true)
            &&& strict ==> grouped(v[k]@)
            &&& even ==> levelled(v[k]@)
        }
}

/// A call over arguments in place is in place.
proof fn lemma_call_ok(
    a: Seq<Tok>,
    reuses: bool,
    strict: bool,
    even: bool,
    p: int,
    q: int,
    fs: Seq<Form>,
    n: Arc<Node>,
    f: Form,
    m: int,
)
    requires
        n.kind matches NodeKind::Call { callee, args } && {
            &&& fits(a, p, callee@)
            &&& callee.weighted()
            &&& q == p + sn(callee@)
            &&& !reuses ==> canon(callee@, m, false)
            &&& strict ==> grouped(callee@)
            &&& even ==> levelled(callee@)
            &&& args_ok(a, reuses, strict, even, q + 1, fs, args@)
            &&& f.kind == (FormKind::Call { callee: Box::new(norm(callee@)), args: fs })
        },
        n.wb == 1,
        n.m_floor == m,
        m < n.m_spine,
        n.width == f.width,
        n.m_spine == f.m_spine,
        n.stop_lbp == f.stop_lbp,
        f.width == span(a, p, p + nt(f)),
    ensures
        tree_ok(a, reuses, strict, even, p, *n, f, m, false),
{
    lemma_call_shape(&*n);
    lemma_norm_call(n@);
    if let NodeKind::Call { callee, args } = n.kind {
        let ts = shapes(args@);
        assert(norm(n@) == f);
        assert forall|i: int| 0 <= i < ts.len() implies fits(
            a,
            #[trigger] at(p + sn(callee@) + 1, norms(ts), i),
            ts[i],
        ) by {
            assert(fits(a, at(q + 1, fs, i), args@[i]@));
        }
        assert forall|i: int| 0 <= i < ts.len() && !reuses implies canon(
            #[trigger] ts[i],
            0,
            true,
        ) by {
            assert(canon(args@[i]@, 0, true));
        }
        assert forall|i: int| 0 <= i < ts.len() && strict implies grouped(#[trigger] ts[i]) by {
            assert(grouped(args@[i]@));
        }
        assert forall|i: int| 0 <= i < ts.len() && even implies levelled(#[trigger] ts[i]) by {
            assert(levelled(args@[i]@));
        }
    }
}

/// A list that parses leaves no context open.
proof fn lemma_ctx_list_done(a: Seq<Tok>, q: int, sep: TokenKind, m: int, acc: Seq<Form>)
    requires
        list_at(a, q, sep, m, acc) is Done,
    ensures
        ctx_list(a, q, sep, m) == Seq::<Ctx>::empty(),
    decreases a.len() - q,
{
    if let Out::Done(f, r) = parse_at(a, q, m) {
        if 0 <= q < r < a.len() && a[r].kind == sep {
            lemma_ctx_list_done(a, r + 1, sep, m, acc.push(f));
        }
    }
}

spec fn tok_at_ok(s: Seq<u8>, start: int, end: int) -> bool {
    &&& 0 <= start < end <= s.len()
    &&& s[start] < 128
    &&& s[end - 1] < 128
}

} // verus!
