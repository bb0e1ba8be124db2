//! Where an error is: the precedence-bounded regions around the token at which
//! a parse fails.

use vstd::prelude::*;
use vstd::string::*;

use crate::expr::ast::IdSource;
use crate::expr::contexts::{ctx_parse, Ctx};
use crate::expr::grammar::parse_at;
use crate::expr::incremental::ReparseStats;
use crate::expr::lexer::{lemma_lex_from, lex, models, Token, TokenKind};
use crate::expr::op::{lbp, lbp_of, MIN_PREC};
use crate::expr::pratt_core::Parser;

verus! {

/// Openers minus closers among tokens `from..to`.
pub open spec fn level(ts: Seq<Token>, open: TokenKind, close: TokenKind, from: int, to: int) -> int
    decreases to - from,
{
    if to <= from {
        0
    } else {
        level(ts, open, close, from, to - 1) + (if ts[to - 1].kind == open {
            1int
        } else if ts[to - 1].kind == close {
            -1int
        } else {
            0int
        })
    }
}

/// The closer of the bracket at `opener` is token `i`: the first one at which
/// as many have been closed as opened.
pub open spec fn closes(ts: Seq<Token>, opener: int, awaits: TokenKind, i: int) -> bool {
    &&& 0 <= opener < i < ts.len()
    &&& 1 + level(ts, ts[opener].kind, awaits, opener + 1, i + 1) == 0
    &&& forall|j: int|
        opener < j < i ==> 1 + #[trigger] level(ts, ts[opener].kind, awaits, opener + 1, j + 1) > 0
}

/// The bracket at `opener` is never closed.
pub open spec fn unclosed(ts: Seq<Token>, opener: int, awaits: TokenKind) -> bool {
    0 <= opener < ts.len() ==> forall|j: int|
        opener < j < ts.len() ==> 1 + #[trigger] level(
            ts,
            ts[opener].kind,
            awaits,
            opener + 1,
            j + 1,
        ) > 0
}

proof fn lemma_closes_once(ts: Seq<Token>, opener: int, awaits: TokenKind, i: int, j: int)
    requires
        closes(ts, opener, awaits, i),
        closes(ts, opener, awaits, j),
    ensures
        i == j,
{
    let x = level(ts, ts[opener].kind, awaits, opener + 1, i + 1);
    let y = level(ts, ts[opener].kind, awaits, opener + 1, j + 1);
}

/// The closer of the bracket at `opener`, if it has one.
pub open spec fn closer_of(ts: Seq<Token>, opener: int, awaits: TokenKind) -> Option<int> {
    if exists|i: int| closes(ts, opener, awaits, i) {
        Some(choose|i: int| closes(ts, opener, awaits, i))
    } else {
        None
    }
}

/// Index of the closer that matches the bracket at `opener`.
pub fn matching_closer(tokens: &[Token], opener: usize, awaits: TokenKind) -> (r: Option<usize>)
    ensures
        match r {
            Some(i) => closes(tokens@, opener as int, awaits, i as int) && closer_of(
                tokens@,
                opener as int,
                awaits,
            ) == Some(i as int),
            None => unclosed(tokens@, opener as int, awaits) && closer_of(
                tokens@,
                opener as int,
                awaits,
            ) is None,
        },
{
    let ghost ts = tokens@;
    if opener >= tokens.len() {
        return None;
    }
    let open = tokens[opener].kind;
    let mut depth: usize = 1;
    let mut i: usize = opener + 1;
    while i < tokens.len()
        invariant
            ts == tokens@,
            opener < i <= ts.len(),
            open == ts[opener as int].kind,
            depth == 1 + level(ts, open, awaits, opener + 1, i as int),
            1 <= depth <= i - opener,
            forall|j: int|
                opener < j < i ==> 1 + #[trigger] level(ts, open, awaits, opener + 1, j + 1) > 0,
        decreases ts.len() - i,
    {
        let k = tokens[i].kind;
        if k == open {
            depth = depth + 1;
        } else if k == awaits {
            depth = depth - 1;
            if depth == 0 {
                proof {
                    assert(level(ts, open, awaits, opener + 1, i + 1) == -1);
                    assert(closes(ts, opener as int, awaits, i as int));
                    let c = choose|c: int| closes(ts, opener as int, awaits, c);
                    lemma_closes_once(ts, opener as int, awaits, i as int, c);
                }
                return Some(i);
            }
        }
        proof {
            assert(level(ts, open, awaits, opener + 1, i + 1) == depth - 1);
        }
        i = i + 1;
    }
    proof {
        assert forall|c: int| !closes(ts, opener as int, awaits, c) by {
            if closes(ts, opener as int, awaits, c) {
                assert(1 + level(ts, open, awaits, opener + 1, c + 1) > 0);
            }
        }
    }
    None
}

pub open spec fn closer_kind(open: TokenKind) -> Option<TokenKind> {
    match open {
        TokenKind::LParen => Some(TokenKind::RParen),
        TokenKind::LBracket => Some(TokenKind::RBracket),
        _ => None,
    }
}

/// Token after the first one from `j` on, before `hard_end`, up to which the
/// group that starts at `i` is balanced; `hard_end` if there is none.
pub open spec fn group_end_from(
    ts: Seq<Token>,
    open: TokenKind,
    close: TokenKind,
    i: int,
    j: int,
    hard_end: int,
) -> int
    decreases hard_end - j,
{
    if j >= hard_end {
        hard_end
    } else if ts[j].kind == close && level(ts, open, close, i, j + 1) == 0 {
        j + 1
    } else {
        group_end_from(ts, open, close, i, j + 1, hard_end)
    }
}

/// Token after the group that starts at `i`.
pub open spec fn group_end(ts: Seq<Token>, i: int, hard_end: int) -> int {
    match closer_kind(ts[i].kind) {
        Some(close) => group_end_from(ts, ts[i].kind, close, i, i, hard_end),
        None => i + 1,
    }
}

proof fn lemma_group_end(
    ts: Seq<Token>,
    open: TokenKind,
    close: TokenKind,
    i: int,
    j: int,
    hard_end: int,
)
    requires
        j <= hard_end,
    ensures
        j <= group_end_from(ts, open, close, i, j, hard_end) <= hard_end,
        j < hard_end ==> j < group_end_from(ts, open, close, i, j, hard_end),
    decreases hard_end - j,
{
    if j < hard_end {
        lemma_group_end(ts, open, close, i, j + 1, hard_end);
    }
}

/// Skip the bracket group that starts at `i`.
fn skip_group(tokens: &[Token], i: usize, hard_end: usize) -> (r: usize)
    requires
        i < hard_end <= tokens@.len(),
    ensures
        r == group_end(tokens@, i as int, hard_end as int),
        i < r <= hard_end,
{
    let ghost ts = tokens@;
    let open = tokens[i].kind;
    let close = match open {
        TokenKind::LParen => TokenKind::RParen,
        TokenKind::LBracket => TokenKind::RBracket,
        _ => {
            return i + 1;
        },
    };
    proof {
        lemma_group_end(ts, open, close, i as int, i as int, hard_end as int);
    }
    let mut depth: usize = 0;
    let mut j: usize = i;
    while j < hard_end
        invariant
            ts == tokens@,
            i <= j <= hard_end <= ts.len(),
            open != close,
            open == ts[i as int].kind,
            closer_kind(open) == Some(close),
            depth == level(ts, open, close, i as int, j as int),
            depth <= j - i,
            j > i ==> depth >= 1,
            group_end_from(ts, open, close, i as int, i as int, hard_end as int) == group_end_from(
                ts,
                open,
                close,
                i as int,
                j as int,
                hard_end as int,
            ),
        decreases hard_end - j,
    {
        let k = tokens[j].kind;
        proof {
            assert(level(ts, open, close, i as int, j + 1) == level(ts, open, close, i as int, j as int)
                + (if k == open {
                1int
            } else if k == close {
                -1int
            } else {
                0int
            }));
        }
        if k == open {
            depth = depth + 1;
        } else if k == close {
            depth = depth - 1;
            if depth == 0 {
                assert(group_end_from(ts, open, close, i as int, j as int, hard_end as int) == j + 1);
                return j + 1;
            }
        }
        j = j + 1;
    }
    hard_end
}

/// Right boundary of an expression frame that starts at token `i`: the first
/// operator that does not bind tighter than `m`, found by scanning operands and
/// operators in turn; `hard_end` if the scan gets there, `None` at a token that
/// fits neither.
pub open spec fn valley(ts: Seq<Token>, i: int, expect: bool, m: int, hard_end: int) -> Option<int>
    decreases (if i < hard_end {
        hard_end - i
    } else {
        0
    }),
{
    let k = ts[i].kind;
    if i >= hard_end {
        Some(hard_end)
    } else if k == TokenKind::LParen || k == TokenKind::LBracket {
        let j = group_end(ts, i, hard_end);
        if i < j {
            valley(ts, j, false, m, hard_end)
        } else {
            None
        }
    } else if k == TokenKind::RParen || k == TokenKind::RBracket {
        None
    } else if expect {
        if k == TokenKind::Minus || k == TokenKind::Bang {
            valley(ts, i + 1, true, m, hard_end)
        } else if k == TokenKind::Int || k == TokenKind::Ident {
            valley(ts, i + 1, false, m, hard_end)
        } else if lbp_of(k) > 0 {
            Some(i)
        } else {
            None
        }
    } else if k == TokenKind::Dot {
        valley(ts, i + 2, false, m, hard_end)
    } else if lbp_of(k) > m {
        valley(ts, i + 1, true, m, hard_end)
    } else if lbp_of(k) > 0 {
        Some(i)
    } else {
        None
    }
}

/// Right boundary of an expression frame's region.
fn valley_boundary(tokens: &[Token], start_tok: usize, min_prec: u32, hard_end: usize) -> (r: Option<
    usize,
>)
    requires
        hard_end < tokens@.len(),
    ensures
        match r {
            Some(v) => valley(tokens@, start_tok as int, true, min_prec as int, hard_end as int) == Some(
                v as int,
            ),
            None => valley(tokens@, start_tok as int, true, min_prec as int, hard_end as int) is None,
        },
{
    let ghost ts = tokens@;
    let mut i: usize = start_tok;
    let mut expect: bool = true;
    let len: usize = tokens.len();
    while i < hard_end
        invariant
            ts == tokens@,
            len == ts.len(),
            hard_end < len,
            valley(ts, start_tok as int, true, min_prec as int, hard_end as int) == valley(
                ts,
                i as int,
                expect,
                min_prec as int,
                hard_end as int,
            ),
        decreases (if i < hard_end {
            hard_end - i
        } else {
            0
        }),
    {
        let k = tokens[i].kind;
        if k == TokenKind::LParen || k == TokenKind::LBracket {
            i = skip_group(tokens, i, hard_end);
            expect = false;
        } else if k == TokenKind::RParen || k == TokenKind::RBracket {
            return None;
        } else if expect {
            if k == TokenKind::Minus || k == TokenKind::Bang {
                i = i + 1;
            } else if k == TokenKind::Int || k == TokenKind::Ident {
                i = i + 1;
                expect = false;
            } else if lbp(k) > 0 {
                return Some(i);
            } else {
                return None;
            }
        } else if k == TokenKind::Dot {
            i = i + 2;
        } else {
            let l: u32 = lbp(k);
            if l > min_prec {
                i = i + 1;
                expect = true;
            } else if l > 0 {
                return Some(i);
            } else {
                return None;
            }
        }
    }
    Some(hard_end)
}

/// The innermost bracket group among the first `j` contexts.
pub open spec fn group_below(cs: Seq<Ctx>, j: int) -> Option<(int, TokenKind)>
    decreases j,
{
    if !(0 < j <= cs.len()) {
        None
    } else {
        match cs[j - 1] {
            Ctx::Group { opener, awaits } => Some((opener as int, awaits)),
            Ctx::Expr { min_prec, start_tok } => group_below(cs, j - 1),
        }
    }
}

/// The innermost bracket group around context `j`.
fn nearest_enclosing_group(cs: &Vec<Ctx>, j: usize) -> (r: Option<(usize, TokenKind)>)
    requires
        j <= cs@.len(),
    ensures
        match r {
            Some((opener, awaits)) => group_below(cs@, j as int) == Some((opener as int, awaits)),
            None => group_below(cs@, j as int) is None,
        },
{
    let mut i: usize = j;
    while i > 0
        invariant
            i <= j <= cs@.len(),
            group_below(cs@, j as int) == group_below(cs@, i as int),
        decreases i,
    {
        match cs[i - 1] {
            Ctx::Group { opener, awaits } => {
                return Some((opener, awaits));
            },
            Ctx::Expr { .. } => {},
        }
        i = i - 1;
    }
    None
}

/// The region of context `j`: the inside of its brackets, or the stretch up to
/// the next operator that does not belong to its frame; none if a bracket
/// around it is not closed.
pub open spec fn window_of(ts: Seq<Token>, cs: Seq<Ctx>, j: int) -> Option<(int, int)> {
    match cs[j] {
        Ctx::Group { opener, awaits } => match closer_of(ts, opener as int, awaits) {
            Some(c) => Some((opener + 1, c)),
            None => None,
        },
        Ctx::Expr { min_prec, start_tok } => {
            let hard_end = match group_below(cs, j) {
                Some((opener, awaits)) => closer_of(ts, opener, awaits),
                None => Some(ts.len() - 1),
            };
            match hard_end {
                Some(h) => match valley(ts, start_tok as int, true, min_prec as int, h) {
                    Some(v) => Some((start_tok as int, v)),
                    None => None,
                },
                None => None,
            }
        },
    }
}

pub open spec fn as_ints(w: Option<(usize, usize)>) -> Option<(int, int)> {
    match w {
        Some((lo, hi)) => Some((lo as int, hi as int)),
        None => None,
    }
}

/// The region of context `j`.
pub fn region_window(cs: &Vec<Ctx>, j: usize, tokens: &[Token]) -> (r: Option<(usize, usize)>)
    requires
        j < cs@.len(),
        tokens@.len() >= 1,
    ensures
        as_ints(r) == window_of(tokens@, cs@, j as int),
{
    match cs[j] {
        Ctx::Group { opener, awaits } => match matching_closer(tokens, opener, awaits) {
            Some(c) => Some((opener + 1, c)),
            None => None,
        },
        Ctx::Expr { min_prec, start_tok } => {
            let hard_end: usize = match nearest_enclosing_group(cs, j) {
                Some((opener, awaits)) => match matching_closer(tokens, opener, awaits) {
                    Some(c) => c,
                    None => {
                        return None;
                    },
                },
                None => tokens.len() - 1,
            };
            match valley_boundary(tokens, start_tok, min_prec, hard_end) {
                Some(v) => Some((start_tok, v)),
                None => None,
            }
        },
    }
}

/// The contexts that parsing `s` leaves open at its first error; none if the
/// expression itself parses.
pub open spec fn open_contexts(s: Seq<u8>) -> Seq<Ctx> {
    if parse_at(lex(s), 0, 0) is Fail {
        ctx_parse(lex(s), 0, 0)
    } else {
        Seq::empty()
    }
}

/// Parse `src` and return the contexts left open at the first error, innermost
/// last.
pub fn open_contexts_at_error(tokens: &[Token], src: &str) -> (r: Vec<Ctx>)
    requires
        models(tokens@, src.spec_bytes()) == lex(src.spec_bytes()),
        src.spec_bytes().len() <= u32::MAX,
    ensures
        r@ == open_contexts(src.spec_bytes()),
{
    proof {
        lemma_lex_from(src.spec_bytes(), 0);
        assert(tokens@.len() == lex(src.spec_bytes()).len());
    }
    let mut p = Parser {
        src,
        tokens,
        pos: 0,
        ids: IdSource::none(),
        reuse: None,
        tracking: true,
        stack: Vec::new(),
        stats: ReparseStats::default(),
    };
    let _ = p.parse_expr(MIN_PREC);
    proof {
        assert(Seq::<Ctx>::empty() + ctx_parse(lex(src.spec_bytes()), 0, 0) =~= ctx_parse(
            lex(src.spec_bytes()),
            0,
            0,
        ));
    }
    p.stack
}

} // verus!
