//! Chains put together from parts: operands that stand one after the other,
//! each parsed on its own, are what parsing gives as one chain.

use vstd::prelude::*;

use crate::expr::grammar::{
    at, chain_form, is_chain_of, lb, lemma_lt_prefix, list_at, listed, loop_at, lt, min_of,
    no_spine, nt, nud_at, parse_at, placed, stamp, state_ok, step_at, toks_ok, Form, Out, OutSeq,
};
use crate::expr::lexer::{Tok, TokenKind};
use crate::expr::locality::{agree, lemma_local_nud, lemma_local_parse, lemma_local_step, same_tok};
use crate::expr::op::{chain_kind, lbp_of, rbp_of};
use crate::expr::placement::{lemma_nud, lemma_parse, lemma_step};
use crate::expr::resume::{deep, lemma_deep_parse, lemma_reached, lemma_reached_state, parses, reached, resumes, run_at};

verus! {

proof fn lemma_local_run(
    a: Seq<Tok>,
    b: Seq<Tok>,
    lo: int,
    hi: int,
    d: int,
    e: int,
    p: int,
    left: Form,
    spine: int,
    q: int,
)
    requires
        toks_ok(a),
        toks_ok(b),
        agree(a, b, lo, hi, d, e),
        a[hi].kind == b[hi + d].kind,
        lo <= p,
        state_ok(a, p, left, spine, q),
        run_at(a, p, left, spine, q, hi) is Some,
    ensures
        run_at(b, p + d, left, spine, q + d, hi + d) == run_at(a, p, left, spine, q, hi),
    decreases a.len() - q,
{
    if q != hi {
        lemma_step(a, p, left, spine, q);
        assert(min_of(spine, lb(a, q)) == lb(a, q));
        assert(same_tok(a[q], b[q + d], e));
        if let Out::Done(next, r) = step_at(a, p, left, lb(a, q), q) {
            assert(run_at(a, p, stamp(next, lb(a, r)), lb(a, q), r, hi) is Some);
            assert(r <= hi);
            lemma_local_step(a, b, lo, hi, d, e, p, left, spine, q);
            lemma_local_run(a, b, lo, hi, d, e, p, stamp(next, lb(a, r)), lb(a, q), r);
            assert(lb(a, r) == lb(b, r + d)) by {
                if r < hi {
                    assert(same_tok(a[r], b[r + d], e));
                }
            }
        }
    }
}

/// The parser builds an expression wherever its tokens recur before a token of
/// the same kind.
pub proof fn lemma_local_reached(
    a: Seq<Tok>,
    b: Seq<Tok>,
    d: int,
    e: int,
    p: int,
    f: Form,
)
    requires
        toks_ok(a),
        toks_ok(b),
        agree(a, b, p, p + nt(f), d, e),
        a[p + nt(f)].kind == b[p + nt(f) + d].kind,
        reached(a, p, f),
    ensures
        reached(b, p + d, f),
{
    let hi = p + nt(f);
    lemma_nud(a, p);
    assert(nud_at(a, p) is Done) by {
        reveal(reached);
    }
    if let Out::Done(l0, q0) = nud_at(a, p) {
        let left = stamp(l0, lb(a, q0));
        assert(run_at(a, p, left, no_spine(), q0, hi) == Some(f)) by {
            reveal(reached);
        }
        assert(q0 <= hi);
        lemma_local_nud(a, b, p, hi, d, e, p);
        assert(lb(a, q0) == lb(b, q0 + d)) by {
            if q0 < hi {
                assert(same_tok(a[q0], b[q0 + d], e));
            }
        }
        lemma_local_run(a, b, p, hi, d, e, p, left, no_spine(), q0);
        assert(reached(b, p + d, f)) by {
            reveal(reached);
        }
    }
}

/// `fs` stand from token `p` on as the first operands of a chain of `op`: the
/// parser gets to the first one, and parses each further one as a right
/// operand.
pub open spec fn chained(a: Seq<Tok>, p: int, op: TokenKind, fs: Seq<Form>) -> bool {
    &&& fs.len() >= 1
    &&& reached(a, p, fs[0])
    &&& fs[0].m_spine >= lbp_of(op)
    &&& forall|i: int|
        0 < i < fs.len() ==> {
            &&& a[#[trigger] at(p, fs, i) - 1].kind == op
            &&& parses(a, at(p, fs, i), rbp_of(op) as int, fs[i])
        }
}

pub proof fn lemma_chain_rbp(op: TokenKind)
    requires
        chain_kind(op),
    ensures
        rbp_of(op) == lbp_of(op),
        0 < lbp_of(op) < 100,
{
}

/// A chain begins with one operand.
pub proof fn lemma_chained_one(a: Seq<Tok>, p: int, op: TokenKind, f: Form)
    requires
        toks_ok(a),
        chain_kind(op),
        parse_at(a, p, rbp_of(op) as int) == Out::Done(f, p + nt(f)),
    ensures
        chained(a, p, op, seq![f]),
{
    lemma_parse(a, p, rbp_of(op) as int);
    lemma_deep_parse(a, p, rbp_of(op) as int);
    assert(deep(a, p, f));
}

/// A chain grows by one operand.
pub proof fn lemma_chained_push(a: Seq<Tok>, p: int, op: TokenKind, fs: Seq<Form>, f: Form)
    requires
        chained(a, p, op, fs),
        a[at(p, fs, fs.len() as int) - 1].kind == op,
        parses(a, at(p, fs, fs.len() as int), rbp_of(op) as int, f),
    ensures
        chained(a, p, op, fs.push(f)),
        at(p, fs.push(f), fs.len() as int + 1) == at(p, fs, fs.len() as int) + nt(f) + 1,
        forall|i: int| 0 <= i <= fs.len() ==> #[trigger] at(p, fs.push(f), i) == at(p, fs, i),
{
    let gs = fs.push(f);
    let n = fs.len() as int;
    assert forall|i: int| 0 <= i <= n implies #[trigger] at(p, gs, i) == at(p, fs, i) by {
        lemma_lt_prefix(gs, fs, i);
    }
    assert(at(p, gs, n) == at(p, fs, n));
    assert(lt(gs, n + 1) == lt(gs, n) + nt(f) + 1);
    assert forall|i: int| 0 < i < gs.len() implies {
        &&& a[#[trigger] at(p, gs, i) - 1].kind == op
        &&& parses(a, at(p, gs, i), rbp_of(op) as int, gs[i])
    } by {
        assert(at(p, gs, i) == at(p, fs, i));
        if i < n {
            assert(gs[i] == fs[i]);
        }
    }
}

/// The operands stand in place.
pub proof fn lemma_chained_listed(a: Seq<Tok>, p: int, op: TokenKind, fs: Seq<Form>)
    requires
        toks_ok(a),
        chain_kind(op),
        chained(a, p, op, fs),
    ensures
        listed(a, p, fs),
        0 <= p,
        state_ok(a, p, fs[0], fs[0].m_spine, p + nt(fs[0])),
        resumes(a, p, fs[0]),
        forall|i: int| 0 < i < fs.len() ==> (#[trigger] fs[i]).m_spine > lbp_of(op),
        at(p, fs, 0) == p,
{
    lemma_reached(a, p, fs[0]);
    assert(lt(fs, 0) == 0);
    assert(at(p, fs, 0) == p);
    assert forall|i: int| 0 < i < fs.len() implies (#[trigger] fs[i]).m_spine > lbp_of(op) by {
        assert(parses(a, at(p, fs, i), rbp_of(op) as int, fs[i]));
        reveal(parses);
        lemma_parse(a, at(p, fs, i), rbp_of(op) as int);
    }
    assert forall|i: int| 0 <= i < fs.len() implies {
        &&& placed(a, #[trigger] at(p, fs, i), fs[i], at(p, fs, i) + nt(fs[i]))
        &&& fs[i].stop_lbp == lb(a, at(p, fs, i) + nt(fs[i]))
    } by {
        if i > 0 {
            assert(parses(a, at(p, fs, i), rbp_of(op) as int, fs[i]));
            reveal(parses);
            lemma_parse(a, at(p, fs, i), rbp_of(op) as int);
        }
    }
}

/// The list of operands from number `i` on.
proof fn lemma_chained_list(a: Seq<Tok>, p: int, op: TokenKind, fs: Seq<Form>, i: int)
    requires
        toks_ok(a),
        chain_kind(op),
        chained(a, p, op, fs),
        listed(a, p, fs),
        1 <= i < fs.len(),
        a[at(p, fs, fs.len() as int) - 1].kind != op,
    ensures
        list_at(a, at(p, fs, i), op, rbp_of(op) as int, fs.take(i)) == OutSeq::Done(
            fs,
            at(p, fs, fs.len() as int) - 1,
        ),
    decreases fs.len() - i,
{
    let c = at(p, fs, i);
    assert(parses(a, c, rbp_of(op) as int, fs[i]));
    reveal(parses);
    assert(placed(a, c, fs[i], c + nt(fs[i])));
    assert(at(p, fs, i + 1) == c + nt(fs[i]) + 1);
    assert(fs.take(i).push(fs[i]) =~= fs.take(i + 1));
    if i + 1 < fs.len() {
        lemma_chained_list(a, p, op, fs, i + 1);
    } else {
        assert(fs.take(i + 1) =~= fs);
    }
}

/// Operands that stand in place are parsed as one chain.
pub proof fn lemma_chained_done(a: Seq<Tok>, p: int, op: TokenKind, fs: Seq<Form>, m: int)
    requires
        toks_ok(a),
        chain_kind(op),
        chained(a, p, op, fs),
        fs.len() >= 2,
        a[at(p, fs, fs.len() as int) - 1].kind != op,
        0 <= m < lbp_of(op),
        lb(a, at(p, fs, fs.len() as int) - 1) <= m,
    ensures
        parse_at(a, p, m) == Out::Done(
            chain_form(a, p, op, fs, at(p, fs, fs.len() as int) - 1),
            at(p, fs, fs.len() as int) - 1,
        ),
{
    lemma_chained_listed(a, p, op, fs);
    let n = fs.len() as int;
    let r = at(p, fs, n) - 1;
    let f = fs[0];
    let q = p + nt(f);
    assert(at(p, fs, 1) == q + 1);
    assert(a[at(p, fs, 1) - 1].kind == op);
    lemma_chained_list(a, p, op, fs, 1);
    assert(fs.take(1) =~= seq![f]);
    let g = chain_form(a, p, op, fs, r);
    assert(placed(a, at(p, fs, n - 1), fs[n - 1], at(p, fs, n - 1) + nt(fs[n - 1])));
    assert(at(p, fs, n) == at(p, fs, n - 1) + nt(fs[n - 1]) + 1);
    assert(fs.last().stop_lbp == lb(a, r));
    assert(q < r) by {
        crate::expr::locality::lemma_list_grows(a, q + 1, op, rbp_of(op) as int, seq![f]);
    }
    assert(parse_at(a, p, m) == loop_at(a, p, m, f, f.m_spine, q));
    assert(min_of(f.m_spine, lb(a, q)) == lbp_of(op));
    assert(step_at(a, p, f, lbp_of(op) as int, q) == Out::Done(g, r));
    assert(stamp(g, lb(a, r)) == g);
    assert(loop_at(a, p, m, g, lbp_of(op) as int, r) == Out::Done(g, r));
}

/// The operands of a chain that the grammar produces.
pub proof fn lemma_chained_of(a: Seq<Tok>, p: int, op: TokenKind, f: Form)
    requires
        toks_ok(a),
        chain_kind(op),
        deep(a, p, f),
        is_chain_of(f, op),
    ensures
        chained(a, p, op, f.kind->Chain_operands),
        at(p, f.kind->Chain_operands, f.kind->Chain_operands.len() as int) == p + nt(f) + 1,
{
    let fs = f.kind->Chain_operands;
    assert(lt(fs, 0) == 0);
    assert(at(p, fs, 0) == p);
    assert(deep(a, at(p, fs, 0), fs[0]));
    assert(at(p, fs, 1) - 1 == p + nt(fs[0]));
    assert(a[at(p, fs, 1) - 1].kind == op);
    lemma_reached_state(a, p, fs[0]);
}

/// The first operands of a chain stand wherever their tokens recur before the
/// chain's operator.
pub proof fn lemma_chained_prefix(
    a: Seq<Tok>,
    b: Seq<Tok>,
    p: int,
    op: TokenKind,
    fs: Seq<Form>,
    k: int,
    d: int,
    e: int,
)
    requires
        toks_ok(a),
        toks_ok(b),
        chain_kind(op),
        chained(a, p, op, fs),
        1 <= k < fs.len(),
        0 <= p + d,
        at(p, fs, k) - 1 + d < b.len(),
        forall|i: int| p <= i < at(p, fs, k) - 1 ==> same_tok(#[trigger] a[i], b[i + d], e),
        b[at(p, fs, k) - 1 + d].kind == op,
    ensures
        chained(b, p + d, op, fs.take(k)),
        forall|i: int| 0 <= i <= k ==> #[trigger] at(p + d, fs.take(k), i) == at(p, fs, i) + d,
{
    let gs = fs.take(k);
    lemma_chained_listed(a, p, op, fs);
    assert forall|i: int| 0 <= i <= k implies #[trigger] at(p + d, gs, i) == at(p, fs, i) + d by {
        lemma_lt_prefix(gs, fs, i);
    }
    assert forall|i: int| 0 <= i < k implies agree(
        a,
        b,
        #[trigger] at(p, fs, i),
        at(p, fs, i) + nt(fs[i]),
        d,
        e,
    ) && a[at(p, fs, i) + nt(fs[i])].kind == op && b[at(p, fs, i) + nt(fs[i]) + d].kind == op by {
        lemma_at_order(a, p, fs, 0, i);
        lemma_at_order(a, p, fs, i + 1, k);
        assert(placed(a, at(p, fs, i), fs[i], at(p, fs, i) + nt(fs[i])));
        assert(at(p, fs, i + 1) == at(p, fs, i) + nt(fs[i]) + 1);
        assert(a[at(p, fs, i + 1) - 1].kind == op);
        if i + 1 < k {
            assert(at(p, fs, i + 1) < at(p, fs, k));
            assert(same_tok(a[at(p, fs, i + 1) - 1], b[at(p, fs, i + 1) - 1 + d], e));
        }
    }
    assert(at(p, fs, 0) == p);
    assert(agree(a, b, at(p, fs, 0), at(p, fs, 0) + nt(fs[0]), d, e));
    lemma_local_reached(a, b, d, e, p, fs[0]);
    assert forall|i: int| 0 < i < gs.len() implies {
        &&& b[#[trigger] at(p + d, gs, i) - 1].kind == op
        &&& parses(b, at(p + d, gs, i), rbp_of(op) as int, gs[i])
    } by {
        let c = at(p, fs, i);
        assert(at(p + d, gs, i) == c + d);
        assert(agree(a, b, at(p, fs, i), at(p, fs, i) + nt(fs[i]), d, e));
        assert(agree(a, b, at(p, fs, i - 1), at(p, fs, i - 1) + nt(fs[i - 1]), d, e));
        assert(at(p, fs, i) == at(p, fs, i - 1) + nt(fs[i - 1]) + 1);
        lemma_parses_local(a, b, c, d, e, rbp_of(op) as int, fs[i]);
    }
}

proof fn lemma_parses_local(a: Seq<Tok>, b: Seq<Tok>, c: int, d: int, e: int, m: int, f: Form)
    requires
        toks_ok(a),
        toks_ok(b),
        agree(a, b, c, c + nt(f), d, e),
        0 <= m < no_spine(),
        parses(a, c, m, f),
    ensures
        parses(b, c + d, m, f),
{
    reveal(parses);
    lemma_local_parse(a, b, c, c + nt(f), d, e, c, m);
}

/// Operands stand in order.
pub proof fn lemma_at_order(a: Seq<Tok>, p: int, fs: Seq<Form>, i: int, j: int)
    requires
        listed(a, p, fs),
        0 <= i <= j <= fs.len(),
    ensures
        at(p, fs, i) + 2 * (j - i) <= at(p, fs, j),
        j > i ==> at(p, fs, j) - 1 < a.len(),
    decreases j - i,
{
    if i < j {
        lemma_at_order(a, p, fs, i, j - 1);
        assert(placed(a, at(p, fs, j - 1), fs[j - 1], at(p, fs, j - 1) + nt(fs[j - 1])));
        assert(at(p, fs, j) == at(p, fs, j - 1) + nt(fs[j - 1]) + 1);
    }
}

/// The last operands of a chain stand wherever all tokens from them on recur
/// after the chain's operator.
pub proof fn lemma_chained_tail(
    a: Seq<Tok>,
    b: Seq<Tok>,
    p: int,
    op: TokenKind,
    fs: Seq<Form>,
    j: int,
    k: int,
    d: int,
    e: int,
    p2: int,
    gs: Seq<Form>,
)
    requires
        toks_ok(a),
        toks_ok(b),
        chain_kind(op),
        chained(a, p, op, fs),
        1 <= j <= k <= fs.len(),
        chained(b, p2, op, gs),
        at(p2, gs, gs.len() as int) == at(p, fs, j) + d,
        b[at(p, fs, j) - 1 + d].kind == op,
        b.len() == a.len() + d,
        forall|i: int| at(p, fs, j) <= i < a.len() ==> same_tok(#[trigger] a[i], b[i + d], e),
    ensures
        chained(b, p2, op, gs + fs.subrange(j, k)),
        forall|i: int|
            j <= i <= k ==> at(p2, gs + fs.subrange(j, k), gs.len() + (i - j)) == #[trigger] at(
                p,
                fs,
                i,
            ) + d,
    decreases k,
{
    lemma_chained_listed(a, p, op, fs);
    lemma_chained_listed(b, p2, op, gs);
    lemma_at_order(b, p2, gs, 0, gs.len() as int);
    if j == k {
        assert(gs + fs.subrange(j, k) =~= gs);
    } else {
        lemma_chained_tail(a, b, p, op, fs, j, k - 1, d, e, p2, gs);
        let hs = gs + fs.subrange(j, k - 1);
        let f = fs[k - 1];
        let c = at(p, fs, k - 1);
        let n = hs.len() as int;
        assert(hs.push(f) =~= gs + fs.subrange(j, k));
        assert(at(p2, hs, n) == c + d);
        lemma_at_order(a, p, fs, j, k - 1);
        lemma_at_order(a, p, fs, j, k);
        assert(placed(a, c, f, c + nt(f)));
        assert(at(p, fs, k) == c + nt(f) + 1);
        assert(same_tok(a[c + nt(f)], b[c + nt(f) + d], e));
        assert(agree(a, b, c, c + nt(f), d, e));
        assert(a[c - 1].kind == op);
        if j < k - 1 {
            assert(same_tok(a[c - 1], b[c - 1 + d], e));
        }
        assert(parses(a, c, rbp_of(op) as int, f));
        lemma_parses_local(a, b, c, d, e, rbp_of(op) as int, f);
        lemma_chained_push(b, p2, op, hs, f);
        assert forall|i: int| j <= i <= k implies at(p2, hs.push(f), gs.len() + (i - j))
            == #[trigger] at(p, fs, i) + d by {
            if i < k {
                assert(at(p2, hs.push(f), gs.len() + (i - j)) == at(p2, hs, gs.len() + (i - j)));
            }
        }
    }
}

} // verus!
