//! What repairs cost by kind, which bracket closes another, and what a failed parse was
//! in the middle of.

use vstd::prelude::*;

use crate::expr::contexts::{ctx_inner, ctx_list, ctx_loop, ctx_nud, ctx_parse, ctx_step, Ctx};
use crate::expr::grammar::{
    lb, min_of, no_spine, nud_at, parse_at, stamp, step_at, Form, Out,
};
use crate::expr::lexer::{Tok, Token, TokenKind};
use crate::expr::op::{lbp_of, prefix_rbp_of, rbp_of};
use crate::expr::region::{closes, level};
use crate::expr::repair::{capped_cost, sum_of, sum_upto, Repair, RepairCosts};

verus! {

// ---- Costs -------------------------------------------------------------

/// How many of the first `k` repairs are of a sort.
pub open spec fn tally(rs: Seq<Repair>, sort: spec_fn(Repair) -> bool, k: int) -> int
    decreases k,
{
    if k <= 0 {
        0
    } else {
        tally(rs, sort, k - 1) + (if sort(rs[k - 1]) {
            1int
        } else {
            0int
        })
    }
}

/// Repairs cost by what they do, not where or with what token: so much for each token put
/// in, for each dropped and for each replaced.
pub proof fn law_cost_by_kind(c: RepairCosts, rs: Seq<Repair>)
    ensures
        sum_of(c, rs) == c.insert * tally(rs, |r: Repair| r is Insert, rs.len() as int) + c.delete
            * tally(rs, |r: Repair| r is Delete, rs.len() as int) + c.substitute * tally(
            rs,
            |r: Repair| r is Substitute,
            rs.len() as int,
        ),
{
    let (f, g, h) = (
        |r: Repair| r is Insert,
        |r: Repair| r is Delete,
        |r: Repair| r is Substitute,
    );
    lemma_by_kind(c, rs, f, g, h, rs.len() as int);
}

proof fn lemma_by_kind(
    c: RepairCosts,
    rs: Seq<Repair>,
    f: spec_fn(Repair) -> bool,
    g: spec_fn(Repair) -> bool,
    h: spec_fn(Repair) -> bool,
    k: int,
)
    requires
        0 <= k <= rs.len(),
        forall|r: Repair| #[trigger] f(r) == (r is Insert),
        forall|r: Repair| #[trigger] g(r) == (r is Delete),
        forall|r: Repair| #[trigger] h(r) == (r is Substitute),
    ensures
        sum_upto(c, rs, k) == c.insert * tally(rs, f, k) + c.delete * tally(rs, g, k)
            + c.substitute * tally(rs, h, k),
    decreases k,
{
    let (x, y, z) = (tally(rs, f, k - 1), tally(rs, g, k - 1), tally(rs, h, k - 1));
    let (a, b, d) = (c.insert as int, c.delete as int, c.substitute as int);
    if k > 0 {
        lemma_by_kind(c, rs, f, g, h, k - 1);
        assert(a * (x + 1) == a * x + a) by (nonlinear_arith);
        assert(b * (y + 1) == b * y + b) by (nonlinear_arith);
        assert(d * (z + 1) == d * z + d) by (nonlinear_arith);
        assert(f(rs[k - 1]) || g(rs[k - 1]) || h(rs[k - 1]));
    } else {
        assert(a * 0 + b * 0 + d * 0 == 0) by (nonlinear_arith);
    }
}

/// A total is the sum as long as that is no more than `INFINITY`, and else that; it does
/// not matter when it is capped.
pub proof fn law_total_capped(a: int, b: int)
    requires
        0 <= a,
        0 <= b,
    ensures
        a <= 2147483647 ==> capped_cost(a) == a,
        a >= 2147483647 ==> capped_cost(a) == 2147483647,
        capped_cost(capped_cost(a) + b) == capped_cost(a + b),
        a <= b ==> capped_cost(a) <= capped_cost(b),
{
}

// ---- Brackets ----------------------------------------------------------

/// What closes a bracket is of the kind awaited, and between the two as many brackets of
/// the kind are closed as opened, at no place more.
pub proof fn law_closed_by(ts: Seq<Token>, opener: int, awaits: TokenKind, i: int)
    requires
        closes(ts, opener, awaits, i),
        ts[opener].kind != awaits,
    ensures
        opener < i < ts.len(),
        ts[i].kind == awaits,
        level(ts, ts[opener].kind, awaits, opener + 1, i) == 0,
        forall|j: int|
            opener < j < i ==> #[trigger] level(
                ts,
                ts[opener].kind,
                awaits,
                opener + 1,
                j + 1,
            ) >= 0,
{
    let o = ts[opener].kind;
    if opener + 1 < i {
        assert(1 + level(ts, o, awaits, opener + 1, (i - 1) + 1) > 0);
    }
    assert(level(ts, o, awaits, opener + 1, i) >= 0);
    assert(level(ts, o, awaits, opener + 1, i + 1) == level(ts, o, awaits, opener + 1, i) + (
    if ts[i].kind == o {
        1int
    } else if ts[i].kind == awaits {
        -1int
    } else {
        0int
    }));
}

// ---- Contexts ----------------------------------------------------------

/// A frame may begin at token `p` with precedence `m`: at the outset, or after a token
/// that leaves an operand open; what it takes binds tighter than that token does.
pub open spec fn begins(a: Seq<Tok>, p: int, m: int) -> bool {
    0 <= p <= a.len() && if p == 0 {
        m == 0
    } else {
        let k = a[p - 1].kind;
        if k == TokenKind::LParen || k == TokenKind::LBracket || k == TokenKind::Comma || k
            == TokenKind::Question {
            m == 0
        } else if k == TokenKind::Colon {
            m == rbp_of(TokenKind::Question)
        } else if k == TokenKind::Bang {
            m == prefix_rbp_of(k)
        } else if k == TokenKind::Minus {
            m == rbp_of(k) || m == prefix_rbp_of(k)
        } else {
            lbp_of(k) > 0 && m == rbp_of(k)
        }
    }
}

/// A context is one that a parse can be in, at token `lo` or later.
pub open spec fn is_context(a: Seq<Tok>, lo: int, c: Ctx) -> bool {
    match c {
        Ctx::Expr { min_prec, start_tok } => lo <= start_tok && begins(
            a,
            start_tok as int,
            min_prec as int,
        ),
        Ctx::Group { opener, awaits } => lo <= opener < a.len() && (a[opener as int].kind
            == TokenKind::LParen && awaits == TokenKind::RParen || a[opener as int].kind
            == TokenKind::LBracket && awaits == TokenKind::RBracket),
    }
}

/// All contexts of a list are.
pub open spec fn are_contexts(a: Seq<Tok>, lo: int, cs: Seq<Ctx>) -> bool {
    forall|j: int| 0 <= j < cs.len() ==> is_context(a, lo, #[trigger] cs[j])
}

/// A failed parse was inside brackets, each awaiting the one that closes it, and
/// expressions, each begun at the outset or after a token that awaits an operand; the
/// outermost is the expression itself.
pub proof fn law_contexts(a: Seq<Tok>)
    requires
        a.len() <= usize::MAX,
    ensures
        are_contexts(a, 0, ctx_parse(a, 0, 0)),
        ctx_parse(a, 0, 0).len() > 0,
        ctx_parse(a, 0, 0)[0] == (Ctx::Expr { min_prec: 0, start_tok: 0 }),
{
    lemma_ctx_parse(a, 0, 0);
}

proof fn lemma_more(a: Seq<Tok>, lo: int, p: int, cs: Seq<Ctx>)
    requires
        lo <= p,
        are_contexts(a, p, cs),
    ensures
        are_contexts(a, lo, cs),
{
    assert forall|j: int| 0 <= j < cs.len() implies is_context(a, lo, #[trigger] cs[j]) by {
        assert(is_context(a, p, cs[j]));
    }
}

proof fn lemma_first(a: Seq<Tok>, lo: int, c: Ctx, cs: Seq<Ctx>)
    requires
        is_context(a, lo, c),
        are_contexts(a, lo, cs),
    ensures
        are_contexts(a, lo, seq![c] + cs),
{
    let all = seq![c] + cs;
    assert forall|j: int| 0 <= j < all.len() implies is_context(a, lo, #[trigger] all[j]) by {
        if j > 0 {
            assert(all[j] == cs[j - 1]);
        }
    }
}

proof fn lemma_ctx_parse(a: Seq<Tok>, p: int, m: int)
    requires
        a.len() <= usize::MAX,
        begins(a, p, m),
    ensures
        are_contexts(a, p, ctx_parse(a, p, m)),
    decreases a.len() - p, 3int,
{
    lemma_ctx_inner(a, p, m);
    lemma_first(
        a,
        p,
        Ctx::Expr { min_prec: m as u32, start_tok: p as usize },
        ctx_inner(a, p, m),
    );
}

proof fn lemma_ctx_inner(a: Seq<Tok>, p: int, m: int)
    requires
        a.len() <= usize::MAX,
        0 <= p <= a.len(),
        0 <= m,
    ensures
        are_contexts(a, p, ctx_inner(a, p, m)),
    decreases a.len() - p, 2int,
{
    if p < a.len() {
        match nud_at(a, p) {
            Out::Fail(e) => lemma_ctx_nud(a, p),
            Out::Done(left, q) => if p < q < a.len() {
                lemma_ctx_loop(a, p, m, stamp(left, lb(a, q)), no_spine(), q);
                lemma_more(a, p, q, ctx_inner(a, p, m));
            },
        }
    }
}

proof fn lemma_ctx_nud(a: Seq<Tok>, p: int)
    requires
        a.len() <= usize::MAX,
        0 <= p < a.len(),
    ensures
        are_contexts(a, p, ctx_nud(a, p)),
    decreases a.len() - p, 1int,
{
    let k = a[p].kind;
    if k == TokenKind::LParen {
        let inner = if parse_at(a, p + 1, 0) is Fail {
            ctx_parse(a, p + 1, 0)
        } else {
            Seq::empty()
        };
        lemma_ctx_parse(a, p + 1, 0);
        lemma_more(a, p, p + 1, inner);
        lemma_first(a, p, Ctx::Group { opener: p as usize, awaits: TokenKind::RParen }, inner);
    } else if k == TokenKind::Minus || k == TokenKind::Bang {
        lemma_ctx_parse(a, p + 1, prefix_rbp_of(k) as int);
        lemma_more(a, p, p + 1, ctx_nud(a, p));
    }
}

proof fn lemma_ctx_loop(a: Seq<Tok>, p: int, m: int, left: Form, spine: int, q: int)
    requires
        a.len() <= usize::MAX,
        0 <= q < a.len(),
        0 <= m,
    ensures
        are_contexts(a, q, ctx_loop(a, p, m, left, spine, q)),
    decreases a.len() - q, 1int,
{
    if lb(a, q) > m {
        let s = min_of(spine, lb(a, q));
        match step_at(a, p, left, s, q) {
            Out::Fail(e) => lemma_ctx_step(a, q, m),
            Out::Done(next, r) => if q < r < a.len() {
                lemma_ctx_loop(a, p, m, stamp(next, lb(a, r)), s, r);
                lemma_more(a, q, r, ctx_loop(a, p, m, left, spine, q));
            },
        }
    }
}

proof fn lemma_ctx_step(a: Seq<Tok>, q: int, m: int)
    requires
        a.len() <= usize::MAX,
        0 <= q < a.len(),
        lb(a, q) > m,
        m >= 0,
    ensures
        are_contexts(a, q, ctx_step(a, q)),
    decreases a.len() - q, 0int,
{
    let k = a[q].kind;
    if k == TokenKind::LParen {
        let inner = ctx_list(a, q + 1, TokenKind::Comma, 0);
        lemma_ctx_list(a, q + 1, TokenKind::Comma, 0);
        lemma_more(a, q, q + 1, inner);
        lemma_first(a, q, Ctx::Group { opener: q as usize, awaits: TokenKind::RParen }, inner);
    } else if k == TokenKind::LBracket {
        let inner = if parse_at(a, q + 1, 0) is Fail {
            ctx_parse(a, q + 1, 0)
        } else {
            Seq::empty()
        };
        lemma_ctx_parse(a, q + 1, 0);
        lemma_more(a, q, q + 1, inner);
        lemma_first(a, q, Ctx::Group { opener: q as usize, awaits: TokenKind::RBracket }, inner);
    } else if k == TokenKind::Dot {
    } else if k == TokenKind::Question {
        match parse_at(a, q + 1, 0) {
            Out::Fail(e) => {
                lemma_ctx_parse(a, q + 1, 0);
                lemma_more(a, q, q + 1, ctx_step(a, q));
            },
            Out::Done(then, r) => if q < r < a.len() && a[r].kind == TokenKind::Colon {
                lemma_ctx_parse(a, r + 1, rbp_of(k) as int);
                lemma_more(a, q, r + 1, ctx_step(a, q));
            },
        }
    } else if crate::expr::op::chain_kind(k) {
        lemma_ctx_list(a, q + 1, k, rbp_of(k) as int);
        lemma_more(a, q, q + 1, ctx_step(a, q));
    } else {
        lemma_ctx_parse(a, q + 1, rbp_of(k) as int);
        lemma_more(a, q, q + 1, ctx_step(a, q));
    }
}

proof fn lemma_ctx_list(a: Seq<Tok>, q: int, sep: TokenKind, m: int)
    requires
        a.len() <= usize::MAX,
        begins(a, q, m),
        sep == TokenKind::Comma && m == 0 || crate::expr::op::chain_kind(sep) && m == rbp_of(sep),
    ensures
        are_contexts(a, q, ctx_list(a, q, sep, m)),
    decreases a.len() - q, 4int,
{
    match parse_at(a, q, m) {
        Out::Fail(e) => lemma_ctx_parse(a, q, m),
        Out::Done(f, r) => if 0 <= q < r < a.len() && a[r].kind == sep {
            lemma_ctx_list(a, r + 1, sep, m);
            lemma_more(a, q, r + 1, ctx_list(a, q, sep, m));
        },
    }
}

} // verus!
