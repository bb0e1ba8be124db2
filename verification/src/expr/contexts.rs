//! Open contexts at a parse error: which expression frames and bracket groups
//! the parser is inside of when it fails.

use vstd::prelude::*;

use crate::expr::grammar::{lb, min_of, no_spine, nud_at, parse_at, stamp, step_at, Form, Out};
use crate::expr::lexer::{Tok, TokenKind};
use crate::expr::op::{chain_kind, prefix_rbp_of, rbp_of};

verus! {

/// An open parse context: an expression frame or a bracket group.
#[derive(Debug, Clone, Copy, PartialEq, Eq, Structural)]
pub enum Ctx {
    Expr { min_prec: u32, start_tok: usize },
    Group { opener: usize, awaits: TokenKind },
}

/// The contexts, outermost first, that a failing parse at `p` leaves open.
pub open spec fn ctx_parse(a: Seq<Tok>, p: int, m: int) -> Seq<Ctx>
    decreases a.len() - p, 3int,
{
    seq![Ctx::Expr { min_prec: m as u32, start_tok: p as usize }] + ctx_inner(a, p, m)
}

/// Those inside the frame of the expression itself.
pub open spec fn ctx_inner(a: Seq<Tok>, p: int, m: int) -> Seq<Ctx>
    decreases a.len() - p, 2int,
{
    if !(0 <= p < a.len()) {
        Seq::empty()
    } else {
        match nud_at(a, p) {
            Out::Fail(e) => ctx_nud(a, p),
            Out::Done(left, q) => if p < q < a.len() {
                ctx_loop(a, p, m, stamp(left, lb(a, q)), no_spine(), q)
            } else {
                Seq::empty()
            },
        }
    }
}

pub open spec fn ctx_nud(a: Seq<Tok>, p: int) -> Seq<Ctx>
    decreases a.len() - p, 1int,
{
    let k = a[p].kind;
    if !(0 <= p < a.len()) {
        Seq::empty()
    } else if k == TokenKind::LParen {
        seq![Ctx::Group { opener: p as usize, awaits: TokenKind::RParen }] + (if parse_at(a, p + 1, 0) is Fail {
            ctx_parse(a, p + 1, 0)
        } else {
            Seq::empty()
        })
    } else if k == TokenKind::Minus || k == TokenKind::Bang {
        ctx_parse(a, p + 1, prefix_rbp_of(k) as int)
    } else {
        Seq::empty()
    }
}

pub open spec fn ctx_loop(a: Seq<Tok>, p: int, m: int, left: Form, spine: int, q: int) -> Seq<Ctx>
    decreases a.len() - q, 1int,
{
    if !(0 <= q < a.len()) || lb(a, q) <= m {
        Seq::empty()
    } else {
        let s = min_of(spine, lb(a, q));
        match step_at(a, p, left, s, q) {
            Out::Fail(e) => ctx_step(a, q),
            Out::Done(next, r) => if q < r < a.len() {
                ctx_loop(a, p, m, stamp(next, lb(a, r)), s, r)
            } else {
                Seq::empty()
            },
        }
    }
}

pub open spec fn ctx_step(a: Seq<Tok>, q: int) -> Seq<Ctx>
    decreases a.len() - q, 0int,
{
    let k = a[q].kind;
    if !(0 <= q < a.len()) {
        Seq::empty()
    } else if k == TokenKind::LParen {
        seq![Ctx::Group { opener: q as usize, awaits: TokenKind::RParen }] + ctx_list(
            a,
            q + 1,
            TokenKind::Comma,
            0,
        )
    } else if k == TokenKind::LBracket {
        seq![Ctx::Group { opener: q as usize, awaits: TokenKind::RBracket }] + (if parse_at(
            a,
            q + 1,
            0,
        ) is Fail {
            ctx_parse(a, q + 1, 0)
        } else {
            Seq::empty()
        })
    } else if k == TokenKind::Dot {
        Seq::empty()
    } else if k == TokenKind::Question {
        match parse_at(a, q + 1, 0) {
            Out::Fail(e) => ctx_parse(a, q + 1, 0),
            Out::Done(then, r) => if q < r < a.len() && a[r].kind == TokenKind::Colon {
                ctx_parse(a, r + 1, rbp_of(k) as int)
            } else {
                Seq::empty()
            },
        }
    } else if chain_kind(k) {
        ctx_list(a, q + 1, k, rbp_of(k) as int)
    } else {
        ctx_parse(a, q + 1, rbp_of(k) as int)
    }
}

pub open spec fn ctx_list(a: Seq<Tok>, q: int, sep: TokenKind, m: int) -> Seq<Ctx>
    decreases a.len() - q, 4int,
{
    match parse_at(a, q, m) {
        Out::Fail(e) => ctx_parse(a, q, m),
        Out::Done(f, r) => if 0 <= q < r < a.len() && a[r].kind == sep {
            ctx_list(a, r + 1, sep, m)
        } else {
            Seq::empty()
        },
    }
}

} // verus!
