//! Where the expressions of the grammar stand: spans, token counts and the
//! invariant of the operator loop.

use vstd::prelude::*;

use crate::expr::grammar::{
    at, chain_form, form_ok, is_chain_of, lb, list_at, listed, loop_at, lt, lemma_lt_prefix, min_of,
    no_spine, nt, nud_at, parse_at, placed, stamp, state_ok, step_at, toks_ok, Form, Out, OutSeq,
};
use crate::expr::lexer::{Tok, TokenKind};
use crate::expr::op::{chain_kind, lbp_of, postfix_kind, prefix_rbp_of, rbp_of};

verus! {

/// A parsed expression spans the tokens it counts, stops at a token that binds
/// no tighter than `m`, and has absorbed only operators that bind tighter.
pub proof fn lemma_parse(a: Seq<Tok>, p: int, m: int)
    requires
        toks_ok(a),
        0 <= m < no_spine(),
    ensures
        parse_at(a, p, m) matches Out::Done(f, q) ==> {
            &&& state_ok(a, p, f, f.m_spine, q)
            &&& lb(a, q) <= m
            &&& f.m_spine > m
        },
    decreases a.len() - p, 3int,
{
    if 0 <= p < a.len() {
        lemma_nud(a, p);
        if let Out::Done(left, q) = nud_at(a, p) {
            if p < q < a.len() {
                lemma_loop(a, p, m, stamp(left, lb(a, q)), no_spine(), q);
            }
        }
    }
}

pub proof fn lemma_nud(a: Seq<Tok>, p: int)
    requires
        toks_ok(a),
    ensures
        nud_at(a, p) matches Out::Done(f, q) ==> {
            &&& state_ok(a, p, stamp(f, lb(a, q)), no_spine(), q)
            &&& forall|op: TokenKind| !is_chain_of(f, op)
        },
    decreases a.len() - p, 2int,
{
    if 0 <= p < a.len() {
        lemma_parse(a, p + 1, 0);
        lemma_parse(a, p + 1, prefix_rbp_of(a[p].kind) as int);
    }
}

pub proof fn lemma_loop(a: Seq<Tok>, p: int, m: int, left: Form, spine: int, q: int)
    requires
        toks_ok(a),
        0 <= m < spine,
        state_ok(a, p, left, spine, q),
    ensures
        loop_at(a, p, m, left, spine, q) matches Out::Done(f, r) ==> {
            &&& state_ok(a, p, f, f.m_spine, r)
            &&& lb(a, r) <= m
            &&& f.m_spine > m
        },
    decreases a.len() - q, 2int,
{
    if 0 <= q < a.len() && lb(a, q) > m {
        let s = min_of(spine, lb(a, q));
        lemma_step(a, p, left, spine, q);
        if let Out::Done(next, r) = step_at(a, p, left, s, q) {
            if q < r < a.len() {
                lemma_loop(a, p, m, stamp(next, lb(a, r)), s, r);
            }
        }
    }
}

pub proof fn lemma_step(a: Seq<Tok>, p: int, left: Form, spine: int, q: int)
    requires
        toks_ok(a),
        state_ok(a, p, left, spine, q),
        lb(a, q) > 0,
    ensures
        step_at(a, p, left, lb(a, q), q) matches Out::Done(f, r) ==> {
            &&& q < r
            &&& state_ok(a, p, stamp(f, lb(a, r)), lb(a, q), r)
        },
    decreases a.len() - q, 1int,
{
    let k = a[q].kind;
    if postfix_kind(k) {
        lemma_step_postfix(a, p, left, spine, q);
    } else if k == TokenKind::Question {
        lemma_step_ternary(a, p, left, spine, q);
    } else if chain_kind(k) {
        lemma_step_chain(a, p, left, spine, q);
    } else {
        lemma_step_binary(a, p, left, spine, q);
    }
}

proof fn lemma_step_postfix(a: Seq<Tok>, p: int, left: Form, spine: int, q: int)
    requires
        toks_ok(a),
        state_ok(a, p, left, spine, q),
        lb(a, q) > 0,
        postfix_kind(a[q].kind),
    ensures
        step_at(a, p, left, lb(a, q), q) matches Out::Done(f, r) ==> {
            &&& q < r
            &&& state_ok(a, p, stamp(f, lb(a, r)), lb(a, q), r)
        },
    decreases a.len() - q, 0int,
{
    let k = a[q].kind;
    lemma_list(a, q + 1, q + 1, TokenKind::Comma, 0, Seq::<Form>::empty());
    lemma_parse(a, q + 1, 0);
    if let Out::Done(f, r) = step_at(a, p, left, lb(a, q), q) {
        if k == TokenKind::LParen {
            if a[q + 1].kind == TokenKind::RParen {
            } else if let OutSeq::Done(args, z) = list_at(
                a,
                q + 1,
                TokenKind::Comma,
                0,
                Seq::<Form>::empty(),
            ) {
                assert(r == z + 1);
                assert(nt(f) == nt(left) + 1 + lt(args, args.len() as int));
                assert forall|i: int| 0 <= i < args.len() implies form_ok(#[trigger] args[i]) by {
                    assert(placed(a, at(q + 1, args, i), args[i], at(q + 1, args, i) + nt(args[i])));
                }
            }
        }
        assert(r == p + nt(f));
        assert(form_ok(stamp(f, lb(a, r))));
    }
}

proof fn lemma_step_ternary(a: Seq<Tok>, p: int, left: Form, spine: int, q: int)
    requires
        toks_ok(a),
        state_ok(a, p, left, spine, q),
        lb(a, q) > 0,
        a[q].kind == TokenKind::Question,
    ensures
        step_at(a, p, left, lb(a, q), q) matches Out::Done(f, r) ==> {
            &&& q < r
            &&& state_ok(a, p, stamp(f, lb(a, r)), lb(a, q), r)
        },
    decreases a.len() - q, 0int,
{
    let k = a[q].kind;
    lemma_parse(a, q + 1, 0);
    if let Out::Done(then, r) = parse_at(a, q + 1, 0) {
        if q < r < a.len() {
            lemma_parse(a, r + 1, rbp_of(k) as int);
        }
    }
}

/// An operand that absorbed only operators tighter than `op` is no chain of
/// `op`.
proof fn lemma_chain_operands(a: Seq<Tok>, p: int, fs: Seq<Form>, op: TokenKind)
    requires
        listed(a, p, fs),
        chain_kind(op),
        fs.len() >= 1,
        !is_chain_of(fs[0], op),
        forall|i: int| 1 <= i < fs.len() ==> (#[trigger] fs[i]).m_spine > lbp_of(op),
    ensures
        forall|i: int|
            0 <= i < fs.len() ==> form_ok(#[trigger] fs[i]) && !is_chain_of(fs[i], op),
{
    assert forall|i: int| 0 <= i < fs.len() implies form_ok(#[trigger] fs[i]) && !is_chain_of(
        fs[i],
        op,
    ) by {
        assert(placed(a, at(p, fs, i), fs[i], at(p, fs, i) + nt(fs[i])));
        assert(form_ok(fs[i]));
    }
}

proof fn lemma_chain_state(a: Seq<Tok>, p: int, fs: Seq<Form>, op: TokenKind, r: int)
    requires
        toks_ok(a),
        chain_kind(op),
        fs.len() >= 2,
        forall|i: int|
            0 <= i < fs.len() ==> form_ok(#[trigger] fs[i]) && !is_chain_of(fs[i], op),
        0 <= p < r < a.len(),
        r == p + lt(fs, fs.len() as int) - 1,
        lb(a, r) <= lbp_of(op),
        fs.last().stop_lbp == lb(a, r),
        a[r].kind != op,
    ensures
        state_ok(a, p, chain_form(a, p, op, fs, r), lbp_of(op) as int, r),
        chain_form(a, p, op, fs, r) == stamp(chain_form(a, p, op, fs, r), lb(a, r)),
{
    let f = chain_form(a, p, op, fs, r);
    assert(nt(f) == lt(fs, fs.len() as int) - 1);
    assert(form_ok(f));
}

proof fn lemma_step_chain(a: Seq<Tok>, p: int, left: Form, spine: int, q: int)
    requires
        toks_ok(a),
        state_ok(a, p, left, spine, q),
        lb(a, q) > 0,
        chain_kind(a[q].kind),
    ensures
        step_at(a, p, left, lb(a, q), q) matches Out::Done(f, r) ==> {
            &&& q < r
            &&& state_ok(a, p, stamp(f, lb(a, r)), lb(a, q), r)
        },
    decreases a.len() - q, 0int,
{
    let k = a[q].kind;
    let acc = seq![left];
    assert(lt(acc, 0) == 0);
    assert(lt(acc, 1) == nt(left) + 1);
    assert(listed(a, p, acc));
    lemma_list(a, p, q + 1, k, rbp_of(k) as int, acc);
    if let OutSeq::Done(fs, r) = list_at(a, q + 1, k, rbp_of(k) as int, acc) {
        assert(fs[0] == acc[0]);
        if let Out::Done(f, z) = step_at(a, p, left, lb(a, q), q) {
            lemma_chain_operands(a, p, fs, k);
            assert(f == chain_form(a, p, k, fs, r));
            lemma_chain_state(a, p, fs, k, r);
        }
    }
}

proof fn lemma_step_binary(a: Seq<Tok>, p: int, left: Form, spine: int, q: int)
    requires
        toks_ok(a),
        state_ok(a, p, left, spine, q),
        lb(a, q) > 0,
        !postfix_kind(a[q].kind),
        a[q].kind != TokenKind::Question,
        !chain_kind(a[q].kind),
    ensures
        step_at(a, p, left, lb(a, q), q) matches Out::Done(f, r) ==> {
            &&& q < r
            &&& state_ok(a, p, stamp(f, lb(a, r)), lb(a, q), r)
        },
    decreases a.len() - q, 0int,
{
    let k = a[q].kind;
    lemma_parse(a, q + 1, rbp_of(k) as int);
}

/// A list grows by an expression that stands where the list ends.
pub proof fn lemma_listed_push(a: Seq<Tok>, p: int, fs: Seq<Form>, f: Form, q: int, r: int)
    requires
        listed(a, p, fs),
        q == p + lt(fs, fs.len() as int),
        placed(a, q, f, r),
        f.stop_lbp == lb(a, r),
    ensures
        listed(a, p, fs.push(f)),
        forall|i: int| 0 <= i <= fs.len() ==> #[trigger] at(p, fs.push(f), i) == at(p, fs, i),
        r + 1 == p + lt(fs.push(f), fs.len() as int + 1),
{
    let next = fs.push(f);
    let n = fs.len() as int;
    assert forall|i: int| 0 <= i <= n implies lt(next, i) == lt(fs, i) by {
        lemma_lt_prefix(next, fs, i);
    }
    assert(lt(next, n + 1) == lt(next, n) + nt(f) + 1);
    assert forall|i: int| 0 <= i < next.len() implies {
        &&& placed(a, #[trigger] at(p, next, i), next[i], at(p, next, i) + nt(next[i]))
        &&& next[i].stop_lbp == lb(a, at(p, next, i) + nt(next[i]))
    } by {
        if i < n {
            assert(next[i] == fs[i]);
            assert(at(p, fs, i) == at(p, next, i));
        }
    }
}

pub proof fn lemma_list(a: Seq<Tok>, p: int, q: int, sep: TokenKind, m: int, acc: Seq<Form>)
    requires
        toks_ok(a),
        0 <= m < no_spine(),
        0 <= p,
        q == p + lt(acc, acc.len() as int),
        listed(a, p, acc),
    ensures
        list_at(a, q, sep, m, acc) matches OutSeq::Done(fs, r) ==> {
            &&& q < r < a.len()
            &&& fs.len() > acc.len()
            &&& forall|i: int| 0 <= i < acc.len() ==> fs[i] == acc[i]
            &&& forall|i: int| acc.len() <= i < fs.len() ==> (#[trigger] fs[i]).m_spine > m
            &&& r == p + lt(fs, fs.len() as int) - 1
            &&& listed(a, p, fs)
            &&& lb(a, r) <= m
            &&& fs.last().stop_lbp == lb(a, r)
            &&& a[r].kind != sep
        },
    decreases a.len() - q, 4int,
{
    lemma_parse(a, q, m);
    if let Out::Done(f, r) = parse_at(a, q, m) {
        if 0 <= q < r < a.len() {
            let next = acc.push(f);
            let n = acc.len() as int;
            lemma_listed_push(a, p, acc, f, q, r);
            if a[r].kind == sep {
                lemma_list(a, p, r + 1, sep, m, next);
                if let OutSeq::Done(fs, z) = list_at(a, r + 1, sep, m, next) {
                    assert(fs[n] == next[n]);
                    assert forall|i: int| 0 <= i < n implies fs[i] == acc[i] by {
                        assert(fs[i] == next[i]);
                    }
                }
            }
        }
    }
}

} // verus!
