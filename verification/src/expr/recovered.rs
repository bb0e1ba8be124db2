//! What recovery prefers, how much it takes at most, and where it looks.

use vstd::prelude::*;

use crate::expr::contexts::Ctx;
use crate::expr::frontier::{item_less, rank_less, repair_order, Item};
use crate::expr::grammar::parse_stream;
use crate::expr::lexer::{lemma_lex_from, lex, Token, TokenKind};
use crate::expr::mended::law_put_in_lexes;
use crate::expr::op::lbp_of;
use crate::expr::recovery::{
    global_result, mends, none_below, result_of, search_result, unit_costs, RepairResult,
    MAX_REPAIR_COST,
};
use crate::expr::region::{
    closer_kind, closes, closer_of, group_below, group_end, group_end_from, level, valley,
    window_of,
};
use crate::expr::repair::{
    canon_bytes, joined, legal, lemma_path_cost, path_cost, rendered, run, start, texts, Move,
    Repair, Slot,
};

verus! {

// ---- Preference --------------------------------------------------------

/// The token that a repair puts in.
pub open spec fn token_of(r: Repair) -> Option<TokenKind> {
    match r {
        Repair::Insert { at, tok } => Some(tok),
        Repair::Substitute { at, to } => Some(to),
        Repair::Delete { at } => None,
    }
}

/// Where a repair is made.
pub open spec fn place_of(r: Repair) -> usize {
    match r {
        Repair::Insert { at, tok } => at,
        Repair::Substitute { at, to } => at,
        Repair::Delete { at } => at,
    }
}

/// The same thing is done.
pub open spec fn same_deed(x: Repair, y: Repair) -> bool {
    x is Insert && y is Insert || x is Substitute && y is Substitute || x is Delete && y is Delete
}

/// Putting in is preferred to replacing, and that to dropping; then the earlier place; then
/// a number to a name, that to an operator, that to what closes a parenthesis, a bracket
/// and a choice, in this order.
pub proof fn law_preferred_repair(x: Repair, y: Repair)
    ensures
        ({
            let before = rank_less(repair_order(x), repair_order(y));
            let (k, j) = (token_of(x), token_of(y));
            &&& x is Insert && !(y is Insert) ==> before
            &&& x is Substitute && y is Delete ==> before
            &&& same_deed(x, y) && place_of(x) < place_of(y) ==> before
            &&& same_deed(x, y) && place_of(x) == place_of(y) ==> {
                &&& k == Some(TokenKind::Int) && j == Some(TokenKind::Ident) ==> before
                &&& k == Some(TokenKind::Ident) && j == Some(TokenKind::Plus) ==> before
                &&& k == Some(TokenKind::Plus) && j == Some(TokenKind::RParen) ==> before
                &&& k == Some(TokenKind::RParen) && j == Some(TokenKind::RBracket) ==> before
                &&& k == Some(TokenKind::RBracket) && j == Some(TokenKind::Colon) ==> before
            }
            &&& before ==> !rank_less(repair_order(y), repair_order(x))
        }),
{
}

/// Of two candidates the cheaper one comes first; of two as cheap the one with fewer
/// deletions; else the one whose first differing repair is preferred.
pub proof fn law_preferred_candidate(x: Item, y: Item, k: int)
    requires
        0 <= k < x.repairs@.len(),
        k < y.repairs@.len(),
        forall|i: int|
            0 <= i < k ==> repair_order(#[trigger] x.repairs@[i]) == repair_order(y.repairs@[i]),
        rank_less(repair_order(x.repairs@[k]), repair_order(y.repairs@[k])),
    ensures
        x.cost < y.cost ==> item_less(x, y),
        x.cost == y.cost && x.deletions < y.deletions ==> item_less(x, y),
        x.cost == y.cost && x.deletions == y.deletions ==> item_less(x, y),
{
    lemma_first_difference(x.repairs@, y.repairs@, 0, k);
}

proof fn lemma_first_difference(x: Seq<Repair>, y: Seq<Repair>, i: int, k: int)
    requires
        0 <= i <= k < x.len(),
        k < y.len(),
        forall|j: int| 0 <= j < k ==> repair_order(#[trigger] x[j]) == repair_order(y[j]),
        rank_less(repair_order(x[k]), repair_order(y[k])),
    ensures
        crate::expr::frontier::repairs_less(x, y, i),
    decreases k - i,
{
    if i < k {
        assert(repair_order(x[i]) == repair_order(y[i]));
        lemma_first_difference(x, y, i + 1, k);
    }
}

// ---- How much it takes -------------------------------------------------

/// The first token becomes a number, those after it are dropped one by one.
spec fn reduction(k: int) -> Seq<Move>
    decreases k,
{
    if k <= 1 {
        seq![Move::Sub(0, TokenKind::Int)]
    } else {
        reduction(k - 1).push(Move::Del(1))
    }
}

proof fn lemma_reduction(n: int, k: int)
    requires
        1 <= k <= n <= usize::MAX,
    ensures
        legal(n, None, reduction(k)),
        path_cost(unit_costs(), reduction(k)) == k,
        run(n, reduction(k)) == Seq::new(
            (n - k + 1) as nat,
            |i: int|
                if i == 0 {
                    Slot::Synth(TokenKind::Int)
                } else {
                    Slot::Keep((k - 1 + i) as usize)
                },
        ),
    decreases k,
{
    let p = reduction(k);
    let none = Seq::<Move>::empty();
    if k == 1 {
        assert(p.drop_last() =~= none);
        assert(p.last() == Move::Sub(0, TokenKind::Int));
        assert(legal(n, None, none));
        assert(path_cost(unit_costs(), none) == 0);
        assert(run(n, none) == start(n));
        assert(run(n, p) =~= Seq::new(
            n as nat,
            |i: int|
                if i == 0 {
                    Slot::Synth(TokenKind::Int)
                } else {
                    Slot::Keep((k - 1 + i) as usize)
                },
        ));
    } else {
        lemma_reduction(n, k - 1);
        assert(p.drop_last() =~= reduction(k - 1));
        assert(p.last() == Move::Del(1));
        let x = run(n, reduction(k - 1));
        assert(x[1] == Slot::Keep((k - 1) as usize));
        assert(run(n, p) =~= Seq::new(
            (n - k + 1) as nat,
            |i: int|
                if i == 0 {
                    Slot::Synth(TokenKind::Int)
                } else {
                    Slot::Keep((k - 1 + i) as usize)
                },
        ));
    }
}

/// No source takes more repairs than it has tokens.
pub proof fn law_repairs_bounded(s: Seq<u8>)
    requires
        s.len() <= u32::MAX,
        lex(s).len() >= 2,
    ensures
        !none_below(s, None, unit_costs(), lex(s).len() as int),
{
    let n = lex(s).len() - 1;
    lemma_lex_from(s, 0);
    let p = reduction(n);
    lemma_reduction(n, n);
    let xs = run(n, p);
    let r = rendered(s, xs);
    assert(xs.len() == 1 && xs[0] == Slot::Synth(TokenKind::Int));
    assert(texts(s, xs)[0] == canon_bytes(TokenKind::Int));
    assert(joined(texts(s, xs), 1) == texts(s, xs)[0]);
    assert(r == canon_bytes(TokenKind::Int));
    law_put_in_lexes(TokenKind::Int);
    lemma_number_parses(r);
    assert(mends(s, None, p));
}

proof fn lemma_number_parses(w: Seq<u8>)
    requires
        lex(w).len() == 2,
        lex(w)[0].kind == TokenKind::Int,
        lex(w)[1].kind == TokenKind::Eof,
    ensures
        parse_stream(lex(w)) is Ok,
{
    let a = lex(w);
    reveal_with_fuel(crate::expr::grammar::parse_at, 2);
    reveal_with_fuel(crate::expr::grammar::nud_at, 2);
    reveal_with_fuel(crate::expr::grammar::loop_at, 2);
    assert(crate::expr::grammar::lb(a, 1) == 0);
}

/// A source of up to six tokens is never given up; more than six repairs are never made
/// but for giving it up.
pub proof fn law_never_given_up(s: Seq<u8>, r: RepairResult)
    requires
        s.len() <= u32::MAX,
        lex(s).len() >= 2,
        global_result(s, MAX_REPAIR_COST as int, r),
    ensures
        lex(s).len() - 1 <= 6 ==> search_result(
            s,
            None,
            unit_costs(),
            MAX_REPAIR_COST as int,
            Some(r),
        ) && r.cost <= lex(s).len() - 1,
        search_result(s, None, unit_costs(), MAX_REPAIR_COST as int, Some(r)) ==> r.cost <= 6
            && r.repairs@.len() <= 6,
{
    let c = unit_costs();
    law_repairs_bounded(s);
    if search_result(s, None, c, MAX_REPAIR_COST as int, Some(r)) {
        let n = lex(s).len() - 1;
        let p = choose|p: Seq<Move>| #[trigger] result_of(s, None, c, p, r);
        lemma_unit_cost(p);
        lemma_path_cost(n, c, p);
        assert(none_below(s, None, c, r.cost as int));
        let q = choose|q: Seq<Move>| #[trigger] mends(s, None, q) && path_cost(c, q) < lex(s).len();
        assert(path_cost(c, q) >= r.cost);
    }
    if lex(s).len() - 1 <= 6 {
        let q = choose|q: Seq<Move>| #[trigger] mends(s, None, q) && path_cost(c, q) < lex(s).len();
        assert(path_cost(c, q) <= MAX_REPAIR_COST);
        assert(!none_below(s, None, c, MAX_REPAIR_COST + 1));
    }
}

proof fn lemma_unit_cost(p: Seq<Move>)
    ensures
        path_cost(unit_costs(), p) == p.len(),
    decreases p.len(),
{
    if p.len() > 0 {
        lemma_unit_cost(p.drop_last());
    }
}

// ---- Where it looks ----------------------------------------------------

/// A region that an expression frame has ends where the frame's bracket closes or the
/// source ends, or before an operator: one that binds no tighter than the frame, or one
/// that stands where an operand should.
pub proof fn law_valley(ts: Seq<Token>, i: int, expect: bool, m: int, hard_end: int)
    requires
        0 <= i <= hard_end < ts.len(),
        m >= 0,
    ensures
        valley(ts, i, expect, m, hard_end) matches Some(v) ==> {
            &&& i <= v <= hard_end
            &&& v < hard_end ==> lbp_of(ts[v].kind) > 0
            &&& v < hard_end ==> ts[v].kind != TokenKind::LParen && ts[v].kind
                != TokenKind::LBracket && ts[v].kind != TokenKind::RParen && ts[v].kind
                != TokenKind::RBracket
        },
    decreases hard_end - i,
{
    if i < hard_end {
        let k = ts[i].kind;
        if k == TokenKind::LParen || k == TokenKind::LBracket {
            let j = group_end(ts, i, hard_end);
            lemma_group(ts, k, closer_kind(k)->0, i, i, hard_end);
            law_valley(ts, j, false, m, hard_end);
        } else if k == TokenKind::Dot && !expect && i + 2 > hard_end {
            assert(valley(ts, i + 2, false, m, hard_end) == Some(hard_end));
        } else {
            if i + 2 <= hard_end {
                law_valley(ts, i + 2, false, m, hard_end);
            }
            law_valley(ts, i + 1, true, m, hard_end);
            law_valley(ts, i + 1, false, m, hard_end);
        }
    }
}

proof fn lemma_group(
    ts: Seq<Token>,
    open: TokenKind,
    close: TokenKind,
    i: int,
    j: int,
    hard_end: int,
)
    requires
        i <= j <= hard_end,
    ensures
        j <= group_end_from(ts, open, close, i, j, hard_end) <= hard_end,
        j < hard_end ==> j < group_end_from(ts, open, close, i, j, hard_end),
        group_end_from(ts, open, close, i, j, hard_end) < hard_end ==> ({
            let e = group_end_from(ts, open, close, i, j, hard_end);
            ts[e - 1].kind == close && level(ts, open, close, i, e) == 0
        }),
    decreases hard_end - j,
{
    if j < hard_end {
        lemma_group(ts, open, close, i, j + 1, hard_end);
    }
}

/// A frame reads on over what belongs to it: groups as a whole, prefix operators, operands,
/// members, and operators that bind tighter than it; a closing bracket, or a token that
/// fits neither as operand nor as operator, leaves it without a region.
pub proof fn law_valley_reads(ts: Seq<Token>, i: int, m: int, hard_end: int)
    requires
        0 <= i < hard_end < ts.len(),
        m >= 0,
    ensures
        ({
            let k = ts[i].kind;
            let operand = valley(ts, i, true, m, hard_end);
            let operator = valley(ts, i, false, m, hard_end);
            &&& k == TokenKind::RParen || k == TokenKind::RBracket ==> operand is None && operator
                is None
            &&& k == TokenKind::Int || k == TokenKind::Ident ==> operand == valley(
                ts,
                i + 1,
                false,
                m,
                hard_end,
            ) && operator is None
            &&& k == TokenKind::Minus || k == TokenKind::Bang ==> operand == valley(
                ts,
                i + 1,
                true,
                m,
                hard_end,
            )
            &&& k == TokenKind::Comma || k == TokenKind::Colon ==> operand is None && operator is None
            &&& k == TokenKind::Dot ==> operator == valley(ts, i + 2, false, m, hard_end)
            &&& k == TokenKind::LParen || k == TokenKind::LBracket ==> operand == operator
            &&& lbp_of(k) > 0 && k != TokenKind::Dot && k != TokenKind::LParen && k
                != TokenKind::LBracket ==> {
                &&& k != TokenKind::Minus ==> operand == Some(i)
                &&& lbp_of(k) > m ==> operator == valley(ts, i + 1, true, m, hard_end)
                &&& lbp_of(k) <= m ==> operator == Some(i)
            }
        }),
{
    lemma_group(
        ts,
        ts[i].kind,
        if ts[i].kind == TokenKind::LParen {
            TokenKind::RParen
        } else {
            TokenKind::RBracket
        },
        i,
        i,
        hard_end,
    );
}

/// The region of a bracket group is what stands between the bracket and the one that closes
/// it; a group that is not closed has none. That of a frame begins with the frame and lies
/// inside the group around it.
pub proof fn law_region(ts: Seq<Token>, cs: Seq<Ctx>, j: int)
    requires
        0 <= j < cs.len(),
    ensures
        match cs[j] {
            Ctx::Group { opener, awaits } => match window_of(ts, cs, j) {
                Some((lo, hi)) => lo == opener + 1 && closes(ts, opener as int, awaits, hi),
                None => forall|i: int| !#[trigger] closes(ts, opener as int, awaits, i),
            },
            Ctx::Expr { min_prec, start_tok } => match group_below(cs, j) {
                Some((opener, awaits)) => {
                    &&& window_of(ts, cs, j) matches Some((lo, hi)) ==> lo == start_tok && exists|
                        c: int,
                    | #[trigger]
                        closes(ts, opener, awaits, c) && valley(ts, lo, true, min_prec as int, c)
                            == Some(hi)
                    &&& (forall|i: int| !#[trigger] closes(ts, opener, awaits, i)) ==> window_of(
                        ts,
                        cs,
                        j,
                    ) is None
                },
                None => window_of(ts, cs, j) matches Some((lo, hi)) ==> lo == start_tok && valley(
                    ts,
                    lo,
                    true,
                    min_prec as int,
                    ts.len() - 1,
                ) == Some(hi),
            },
        },
{
    if let Ctx::Expr { min_prec, start_tok } = cs[j] {
        if let Some((opener, awaits)) = group_below(cs, j) {
            if exists|i: int| closes(ts, opener, awaits, i) {
                let c = closer_of(ts, opener, awaits)->0;
                assert(closes(ts, opener, awaits, c));
            }
        }
    }
}

} // verus!
