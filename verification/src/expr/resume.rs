//! Resumption: an expression that the parser has finished or passed through
//! is where every parse from its start arrives, at any `min_prec` below its
//! `m_spine`. This is what makes a subtree reusable under another `min_prec`.

use vstd::prelude::*;

use crate::expr::grammar::{
    at, chain_form, lb, lemma_lt_prefix, lemma_lt_skip, list_at, listed, loop_at, lt, min_of, no_spine,
    nt, nud_at, parse_at, placed, seal, stamp, state_ok, step_at, toks_ok, Form, FormKind, Out,
    OutSeq,
};
use crate::expr::lexer::{Tok, TokenKind};
use crate::expr::op::{chain_kind, lbp_of, prefix_rbp_of, rbp_of};
use crate::expr::placement::{lemma_list, lemma_listed_push, lemma_nud, lemma_parse, lemma_step};

verus! {

/// Every parse from token `p` below `f.m_spine` passes through `f`.
pub open spec fn resumes(a: Seq<Tok>, p: int, f: Form) -> bool {
    forall|m: int|
        0 <= m < f.m_spine ==> #[trigger] parse_at(a, p, m) == loop_at(
            a,
            p,
            m,
            f,
            f.m_spine,
            p + nt(f),
        )
}

/// The operator loop run from `left` up to token `z`, whatever the
/// `min_prec`: the expression it has built when it gets there.
pub open spec fn run_at(
    a: Seq<Tok>,
    p: int,
    left: Form,
    spine: int,
    q: int,
    z: int,
) -> Option<Form>
    decreases a.len() - q,
{
    if q == z {
        Some(left)
    } else if !(0 <= q < z < a.len()) || lb(a, q) <= 0 {
        None
    } else {
        let s = min_of(spine, lb(a, q));
        match step_at(a, p, left, s, q) {
            Out::Done(next, r) => if q < r < a.len() {
                run_at(a, p, stamp(next, lb(a, r)), s, r, z)
            } else {
                None
            },
            Out::Fail(_) => None,
        }
    }
}

/// The parser builds `f` from token `p` on, on the way to any longer
/// expression.
#[verifier::opaque]
pub open spec fn reached(a: Seq<Tok>, p: int, f: Form) -> bool {
    nud_at(a, p) matches Out::Done(left, q) && run_at(
        a,
        p,
        stamp(left, lb(a, q)),
        no_spine(),
        q,
        p + nt(f),
    ) == Some(f)
}

/// `f` is the expression at token `p` at `min_prec` `m`.
#[verifier::opaque]
pub open spec fn parses(a: Seq<Tok>, p: int, m: int, f: Form) -> bool {
    parse_at(a, p, m) == Out::Done(f, p + nt(f))
}

/// The operands of a chain from number `i` on, as a chain of their own.
pub open spec fn suffix_form(
    a: Seq<Tok>,
    p: int,
    op: TokenKind,
    operands: Seq<Form>,
    i: int,
) -> Form {
    chain_form(
        a,
        at(p, operands, i),
        op,
        operands.skip(i),
        at(p, operands, operands.len() as int) - 1,
    )
}

/// `f` stands at token `p`, resumes, and so do all its parts: every
/// subexpression and every tail of a chain.
pub open spec fn deep(a: Seq<Tok>, p: int, f: Form) -> bool
    decreases f,
{
    &&& placed(a, p, f, p + nt(f))
    &&& f.stop_lbp == lb(a, p + nt(f))
    &&& resumes(a, p, f)
    &&& reached(a, p, f)
    &&& match f.kind {
        FormKind::Atom(_) => true,
        FormKind::Prefix { op, child } => deep(a, p + 1, *child),
        FormKind::Binary { op, left, right } => {
            &&& deep(a, p, *left)
            &&& deep(a, p + nt(*left) + 1, *right)
        },
        FormKind::Chain { op, operands } => {
            &&& forall|i: int|
                0 <= i < operands.len() ==> deep(a, #[trigger] at(p, operands, i), operands[i])
            &&& forall|i: int|
                0 <= i < operands.len() - 1 ==> resumes(
                    a,
                    at(p, operands, i),
                    #[trigger] suffix_form(a, p, op, operands, i),
                )
            &&& forall|i: int|
                0 < i < operands.len() ==> {
                    &&& a[#[trigger] at(p, operands, i) - 1].kind == op
                    &&& parses(a, at(p, operands, i), rbp_of(op) as int, operands[i])
                }
        },
        FormKind::Ternary { cond, then, else_ } => {
            &&& deep(a, p, *cond)
            &&& deep(a, p + nt(*cond) + 1, *then)
            &&& deep(a, p + nt(*cond) + nt(*then) + 2, *else_)
        },
        FormKind::Paren { inner } => deep(a, p + 1, *inner),
        FormKind::Call { callee, args } => {
            &&& deep(a, p, *callee)
            &&& forall|i: int|
                0 <= i < args.len() ==> deep(a, #[trigger] at(p + nt(*callee) + 1, args, i), args[i])
        },
        FormKind::Index { array, index } => {
            &&& deep(a, p, *array)
            &&& deep(a, p + nt(*array) + 1, *index)
        },
        FormKind::Member { object, field } => deep(a, p, *object),
        FormKind::Missing => false,
        FormKind::Error { skipped } => false,
    }
}

/// Everything the grammar produces is deeply resumable.
pub proof fn lemma_deep_parse(a: Seq<Tok>, p: int, m: int)
    requires
        toks_ok(a),
        0 <= m < no_spine(),
    ensures
        parse_at(a, p, m) matches Out::Done(f, q) ==> deep(a, p, f),
    decreases a.len() - p, 3int,
{
    if 0 <= p < a.len() {
        lemma_nud(a, p);
        if let Out::Done(left, q) = nud_at(a, p) {
            lemma_deep_nud(a, p);
            lemma_deep_loop(a, p, m, stamp(left, lb(a, q)), no_spine(), q);
        }
    }
}

proof fn lemma_deep_nud(a: Seq<Tok>, p: int)
    requires
        toks_ok(a),
        0 <= p < a.len(),
    ensures
        nud_at(a, p) matches Out::Done(f, q) ==> deep(a, p, stamp(f, lb(a, q))),
    decreases a.len() - p, 2int,
{
    lemma_nud(a, p);
    lemma_parse(a, p + 1, 0);
    lemma_parse(a, p + 1, prefix_rbp_of(a[p].kind) as int);
    lemma_deep_parse(a, p + 1, 0);
    lemma_deep_parse(a, p + 1, prefix_rbp_of(a[p].kind) as int);
    if let Out::Done(f, q) = nud_at(a, p) {
        let g = stamp(f, lb(a, q));
        assert(q == p + nt(g));
        assert(reached(a, p, g)) by {
            reveal(reached);
        }
        assert forall|m: int| 0 <= m < g.m_spine implies #[trigger] parse_at(a, p, m) == loop_at(
            a,
            p,
            m,
            g,
            g.m_spine,
            p + nt(g),
        ) by {}
    }
}

proof fn lemma_deep_loop(a: Seq<Tok>, p: int, m: int, left: Form, spine: int, q: int)
    requires
        toks_ok(a),
        0 <= m < spine,
        state_ok(a, p, left, spine, q),
        deep(a, p, left),
    ensures
        loop_at(a, p, m, left, spine, q) matches Out::Done(f, r) ==> deep(a, p, f),
    decreases a.len() - q, 2int,
{
    if lb(a, q) > m {
        let s = min_of(spine, lb(a, q));
        lemma_step(a, p, left, spine, q);
        if let Out::Done(next, r) = step_at(a, p, left, s, q) {
            lemma_deep_step(a, p, left, spine, q);
            lemma_deep_loop(a, p, m, stamp(next, lb(a, r)), s, r);
        }
    } else {
        assert(seal(left, spine) == left);
    }
}

/// A run up to token `z` goes on with the step from there.
#[verifier::rlimit(40)]
proof fn lemma_run_on(a: Seq<Tok>, p: int, left: Form, spine: int, q: int, z: int)
    requires
        toks_ok(a),
        state_ok(a, p, left, spine, q),
        q <= z < a.len(),
        lb(a, z) > 0,
        run_at(a, p, left, spine, q, z) matches Some(f) && state_ok(a, p, f, f.m_spine, z),
    ensures
        run_at(a, p, left, spine, q, z) matches Some(f) && (step_at(a, p, f, lb(a, z), z) matches Out::Done(
            next,
            r,
        ) ==> run_at(a, p, left, spine, q, r) == Some(stamp(next, lb(a, r)))),
    decreases a.len() - q,
{
    if let Some(f) = run_at(a, p, left, spine, q, z) {
        assert(f.stop_lbp == lb(a, z));
        lemma_step(a, p, f, f.m_spine, z);
        if q == z {
            assert(min_of(spine, lb(a, q)) == lb(a, q));
            if let Out::Done(next, r) = step_at(a, p, f, lb(a, z), z) {
                assert(run_at(a, p, stamp(next, lb(a, r)), lb(a, z), r, r) == Some(
                    stamp(next, lb(a, r)),
                ));
            }
        } else {
            lemma_step(a, p, left, spine, q);
            assert(min_of(spine, lb(a, q)) == lb(a, q));
            if let Out::Done(next, r) = step_at(a, p, left, lb(a, q), q) {
                lemma_run_on(a, p, stamp(next, lb(a, r)), lb(a, q), r, z);
            }
        }
    }
}

proof fn lemma_run_state(a: Seq<Tok>, p: int, left: Form, spine: int, q: int, z: int)
    requires
        toks_ok(a),
        state_ok(a, p, left, spine, q),
    ensures
        run_at(a, p, left, spine, q, z) matches Some(f) ==> state_ok(a, p, f, f.m_spine, z),
    decreases a.len() - q,
{
    if q != z && run_at(a, p, left, spine, q, z) is Some {
        lemma_step(a, p, left, spine, q);
        assert(min_of(spine, lb(a, q)) == lb(a, q));
        if let Out::Done(next, r) = step_at(a, p, left, lb(a, q), q) {
            lemma_run_state(a, p, stamp(next, lb(a, r)), lb(a, q), r, z);
        }
    }
}

/// What the parser reaches stands in place.
pub proof fn lemma_reached_state(a: Seq<Tok>, p: int, f: Form)
    requires
        toks_ok(a),
        reached(a, p, f),
    ensures
        state_ok(a, p, f, f.m_spine, p + nt(f)),
{
    reveal(reached);
    lemma_nud(a, p);
    if let Out::Done(l0, q0) = nud_at(a, p) {
        lemma_run_state(a, p, stamp(l0, lb(a, q0)), no_spine(), q0, p + nt(f));
    }
}

/// Where a run arrives, every parse below the `min_prec` it allows arrives.
pub proof fn lemma_run_loop(a: Seq<Tok>, p: int, m: int, left: Form, spine: int, q: int, z: int)
    requires
        toks_ok(a),
        0 <= m,
        state_ok(a, p, left, spine, q),
        run_at(a, p, left, spine, q, z) matches Some(f) && m < f.m_spine,
    ensures
        run_at(a, p, left, spine, q, z) matches Some(f) && {
            &&& loop_at(a, p, m, left, spine, q) == loop_at(a, p, m, f, f.m_spine, z)
            &&& f.m_spine <= spine
            &&& state_ok(a, p, f, f.m_spine, z)
        },
    decreases a.len() - q,
{
    if q != z {
        lemma_step(a, p, left, spine, q);
        assert(min_of(spine, lb(a, q)) == lb(a, q));
        if let Out::Done(next, r) = step_at(a, p, left, lb(a, q), q) {
            lemma_run_loop(a, p, m, stamp(next, lb(a, r)), lb(a, q), r, z);
        }
    }
}

/// What the parser reaches, every parse below its `m_spine` passes through.
pub proof fn lemma_reached(a: Seq<Tok>, p: int, f: Form)
    requires
        toks_ok(a),
        reached(a, p, f),
        f.m_spine > 0,
    ensures
        resumes(a, p, f),
        state_ok(a, p, f, f.m_spine, p + nt(f)),
{
    reveal(reached);
    lemma_nud(a, p);
    if let Out::Done(l0, q0) = nud_at(a, p) {
        let left = stamp(l0, lb(a, q0));
        lemma_run_loop(a, p, 0, left, no_spine(), q0, p + nt(f));
        assert forall|m: int| 0 <= m < f.m_spine implies #[trigger] parse_at(a, p, m) == loop_at(
            a,
            p,
            m,
            f,
            f.m_spine,
            p + nt(f),
        ) by {
            lemma_run_loop(a, p, m, left, no_spine(), q0, p + nt(f));
        }
    }
}

proof fn lemma_step_reached(a: Seq<Tok>, p: int, left: Form, spine: int, q: int)
    requires
        toks_ok(a),
        state_ok(a, p, left, spine, q),
        lb(a, q) > 0,
        reached(a, p, left),
    ensures
        step_at(a, p, left, lb(a, q), q) matches Out::Done(f, r) ==> reached(
            a,
            p,
            stamp(f, lb(a, r)),
        ),
{
    reveal(reached);
    lemma_step(a, p, left, spine, q);
    lemma_nud(a, p);
    if let Out::Done(l0, q0) = nud_at(a, p) {
        lemma_run_end(a, p, stamp(l0, lb(a, q0)), no_spine(), q0, q);
        lemma_run_on(a, p, stamp(l0, lb(a, q0)), no_spine(), q0, q);
    }
}

proof fn lemma_run_end(a: Seq<Tok>, p: int, left: Form, spine: int, q: int, z: int)
    ensures
        run_at(a, p, left, spine, q, z) is Some ==> q <= z,
{
}

/// Absorbing one more operator keeps the resumption property.
proof fn lemma_step_resumes(a: Seq<Tok>, p: int, left: Form, spine: int, q: int)
    requires
        toks_ok(a),
        state_ok(a, p, left, spine, q),
        lb(a, q) > 0,
        resumes(a, p, left),
        reached(a, p, left),
    ensures
        step_at(a, p, left, lb(a, q), q) matches Out::Done(f, r) ==> resumes(
            a,
            p,
            stamp(f, lb(a, r)),
        ) && reached(a, p, stamp(f, lb(a, r))),
{
    lemma_step(a, p, left, spine, q);
    lemma_step_reached(a, p, left, spine, q);
    if let Out::Done(f, r) = step_at(a, p, left, lb(a, q), q) {
        let g = stamp(f, lb(a, r));
        assert(r == p + nt(g));
        assert(q == p + nt(left));
        assert forall|m: int| 0 <= m < g.m_spine implies #[trigger] parse_at(a, p, m) == loop_at(
            a,
            p,
            m,
            g,
            g.m_spine,
            p + nt(g),
        ) by {
            assert(parse_at(a, p, m) == loop_at(a, p, m, left, spine, q));
        }
    }
}

proof fn lemma_deep_step(a: Seq<Tok>, p: int, left: Form, spine: int, q: int)
    requires
        toks_ok(a),
        state_ok(a, p, left, spine, q),
        lb(a, q) > 0,
        deep(a, p, left),
    ensures
        step_at(a, p, left, lb(a, q), q) matches Out::Done(f, r) ==> deep(
            a,
            p,
            stamp(f, lb(a, r)),
        ),
    decreases a.len() - q, 1int,
{
    lemma_step(a, p, left, spine, q);
    lemma_step_resumes(a, p, left, spine, q);
    let k = a[q].kind;
    if let Out::Done(f, r) = step_at(a, p, left, lb(a, q), q) {
        if k == TokenKind::LParen {
            lemma_deep_call(a, p, left, spine, q);
        } else if k == TokenKind::LBracket {
            lemma_parse(a, q + 1, 0);
            lemma_deep_parse(a, q + 1, 0);
        } else if k == TokenKind::Dot {
        } else if k == TokenKind::Question {
            lemma_deep_ternary(a, p, left, spine, q);
        } else if chain_kind(k) {
            lemma_deep_chain(a, p, left, spine, q);
        } else {
            lemma_parse(a, q + 1, rbp_of(k) as int);
            lemma_deep_parse(a, q + 1, rbp_of(k) as int);
        }
    }
}

proof fn lemma_deep_call(a: Seq<Tok>, p: int, left: Form, spine: int, q: int)
    requires
        toks_ok(a),
        state_ok(a, p, left, spine, q),
        a[q].kind == TokenKind::LParen,
        deep(a, p, left),
    ensures
        step_at(a, p, left, lb(a, q), q) matches Out::Done(f, r) ==> deep(
            a,
            p,
            stamp(f, lb(a, r)),
        ),
    decreases a.len() - q, 0int,
{
    lemma_step(a, p, left, spine, q);
    lemma_step_resumes(a, p, left, spine, q);
    if a[q + 1].kind != TokenKind::RParen {
        let none = Seq::<Form>::empty();
        lemma_list(a, q + 1, q + 1, TokenKind::Comma, 0, none);
        lemma_deep_list(a, q + 1, q + 1, TokenKind::Comma, 0, none);
    }
}

proof fn lemma_deep_ternary(a: Seq<Tok>, p: int, left: Form, spine: int, q: int)
    requires
        toks_ok(a),
        state_ok(a, p, left, spine, q),
        a[q].kind == TokenKind::Question,
        deep(a, p, left),
    ensures
        step_at(a, p, left, lb(a, q), q) matches Out::Done(f, r) ==> deep(
            a,
            p,
            stamp(f, lb(a, r)),
        ),
    decreases a.len() - q, 0int,
{
    lemma_step(a, p, left, spine, q);
    lemma_step_resumes(a, p, left, spine, q);
    lemma_parse(a, q + 1, 0);
    lemma_deep_parse(a, q + 1, 0);
    if let Out::Done(then, r) = parse_at(a, q + 1, 0) {
        lemma_parse(a, r + 1, rbp_of(a[q].kind) as int);
        lemma_deep_parse(a, r + 1, rbp_of(a[q].kind) as int);
    }
}

/// The elements of a list are deeply resumable, and a list from any of its
/// elements on is the list's tail.
proof fn lemma_deep_list(a: Seq<Tok>, p: int, q: int, sep: TokenKind, m: int, acc: Seq<Form>)
    requires
        toks_ok(a),
        0 <= m < no_spine(),
        0 <= p,
        q == p + lt(acc, acc.len() as int),
        listed(a, p, acc),
    ensures
        list_at(a, q, sep, m, acc) matches OutSeq::Done(fs, r) ==> {
            forall|i: int|
                acc.len() <= i < fs.len() ==> {
                    &&& deep(a, #[trigger] at(p, fs, i), fs[i])
                    &&& list_at(a, at(p, fs, i), sep, m, fs.take(i)) == OutSeq::Done(fs, r)
                    &&& i > acc.len() ==> a[at(p, fs, i) - 1].kind == sep
                    &&& parses(a, at(p, fs, i), m, fs[i])
                }
        },
    decreases a.len() - q, 4int,
{
    lemma_list(a, p, q, sep, m, acc);
    lemma_parse(a, q, m);
    lemma_deep_parse(a, q, m);
    let n = acc.len() as int;
    if let OutSeq::Done(fs, z) = list_at(a, q, sep, m, acc) {
        lemma_lt_prefix(fs, acc, n);
        assert(fs.take(n) =~= acc);
        if let Out::Done(f, r) = parse_at(a, q, m) {
            let next = acc.push(f);
            if a[r].kind == sep {
                lemma_listed_push(a, p, acc, f, q, r);
                lemma_list(a, p, r + 1, sep, m, next);
                lemma_deep_list(a, p, r + 1, sep, m, next);
                assert(fs[n] == next[n]);
                lemma_lt_prefix(fs, next, n + 1);
            } else {
                assert(fs == next);
            }
            assert(deep(a, at(p, fs, n), fs[n]));
            assert(parses(a, at(p, fs, n), m, fs[n])) by {
                reveal(parses);
            }
        }
    }
}

/// What a list holds already does not influence how it goes on.
pub proof fn lemma_list_acc(a: Seq<Tok>, q: int, sep: TokenKind, m: int, acc: Seq<Form>)
    ensures
        list_at(a, q, sep, m, acc) == (match list_at(a, q, sep, m, Seq::empty()) {
            OutSeq::Fail(e) => OutSeq::Fail(e),
            OutSeq::Done(fs, r) => OutSeq::Done(acc + fs, r),
        }),
    decreases a.len() - q,
{
    if let Out::Done(f, r) = parse_at(a, q, m) {
        let none = Seq::<Form>::empty();
        if 0 <= q < r < a.len() {
            if a[r].kind == sep {
                lemma_list_acc(a, r + 1, sep, m, acc.push(f));
                lemma_list_acc(a, r + 1, sep, m, none.push(f));
                if let OutSeq::Done(fs, z) = list_at(a, r + 1, sep, m, none) {
                    assert(acc.push(f) + fs =~= acc + (none.push(f) + fs));
                }
            } else {
                assert(acc.push(f) =~= acc + none.push(f));
            }
        }
    }
}

#[verifier::rlimit(60)]
proof fn lemma_deep_chain(a: Seq<Tok>, p: int, left: Form, spine: int, q: int)
    requires
        toks_ok(a),
        state_ok(a, p, left, spine, q),
        chain_kind(a[q].kind),
        deep(a, p, left),
    ensures
        step_at(a, p, left, lb(a, q), q) matches Out::Done(f, r) ==> deep(
            a,
            p,
            stamp(f, lb(a, r)),
        ),
    decreases a.len() - q, 0int,
{
    let k = a[q].kind;
    let m = rbp_of(k) as int;
    let acc = seq![left];
    lemma_step(a, p, left, spine, q);
    lemma_step_resumes(a, p, left, spine, q);
    assert(lt(acc, 0) == 0);
    assert(lt(acc, 1) == nt(left) + 1);
    assert(listed(a, p, acc));
    lemma_list(a, p, q + 1, k, m, acc);
    lemma_deep_list(a, p, q + 1, k, m, acc);
    if let OutSeq::Done(fs, r) = list_at(a, q + 1, k, m, acc) {
        assert(fs[0] == acc[0]);
        lemma_lt_prefix(fs, acc, 1);
        assert(lt(fs, 0) == 0);
        assert forall|i: int| 0 <= i < fs.len() - 1 implies resumes(
            a,
            at(p, fs, i),
            #[trigger] suffix_form(a, p, k, fs, i),
        ) by {
            assert(at(p, fs, i + 1) == at(p, fs, i) + nt(fs[i]) + 1);
            assert(deep(a, at(p, fs, i), fs[i])) by {
                if i == 0 {
                    assert(fs[0] == left);
                }
            }
            lemma_suffix_resumes(a, p, k, fs, r, i);
        }
        assert forall|i: int| 0 <= i < fs.len() implies deep(a, #[trigger] at(p, fs, i), fs[i]) by {
            if i == 0 {
                assert(fs[0] == left);
            }
        }
        assert forall|i: int| 0 < i < fs.len() implies {
            &&& a[#[trigger] at(p, fs, i) - 1].kind == k
            &&& parses(a, at(p, fs, i), m, fs[i])
        } by {
            if i == 1 {
                assert(at(p, fs, 1) - 1 == q);
            }
        }
        if let Out::Done(f, z) = step_at(a, p, left, lb(a, q), q) {
            assert(stamp(f, lb(a, z)) == chain_form(a, p, k, fs, r));
        }
    }
}

#[verifier::rlimit(60)]
proof fn lemma_suffix_resumes(
    a: Seq<Tok>,
    p: int,
    op: TokenKind,
    fs: Seq<Form>,
    r: int,
    i: int,
)
    requires
        toks_ok(a),
        chain_kind(op),
        0 <= p,
        0 <= i < fs.len() - 1,
        listed(a, p, fs),
        r == p + lt(fs, fs.len() as int) - 1,
        r < a.len(),
        lb(a, r) <= lbp_of(op),
        fs.last().stop_lbp == lb(a, r),
        deep(a, at(p, fs, i), fs[i]),
        fs[i].m_spine >= lbp_of(op),
        a[at(p, fs, i + 1) - 1].kind == op,
        list_at(a, at(p, fs, i + 1), op, rbp_of(op) as int, fs.take(i + 1)) == OutSeq::Done(fs, r),
    ensures
        resumes(a, at(p, fs, i), suffix_form(a, p, op, fs, i)),
{
    let c = at(p, fs, i);
    let e = at(p, fs, i + 1) - 1;
    assert(e == c + nt(fs[i]));
    let f = fs[i];
    let g = suffix_form(a, p, op, fs, i);
    let m0 = rbp_of(op) as int;
    assert(placed(a, c, f, e));
    assert(e == c + nt(f));
    lemma_list_acc(a, e + 1, op, m0, fs.take(i + 1));
    lemma_list_acc(a, e + 1, op, m0, seq![f]);
    if let OutSeq::Done(rest, z) = list_at(a, e + 1, op, m0, Seq::empty()) {
        assert(fs.take(i + 1) + rest == fs);
        assert(seq![f] + rest =~= fs.skip(i));
    }
    assert(list_at(a, e + 1, op, m0, seq![f]) == OutSeq::Done(fs.skip(i), r));
    assert(fs.skip(i).last() == fs.last());
    lemma_lt_skip(fs, i, fs.len() - i);
    assert(nt(g) == r - c);
    assert(stamp(g, lb(a, r)) == g);
    let q = e;
    assert(q < r) by {
        crate::expr::locality::lemma_list_grows(a, e + 1, op, m0, seq![f]);
    }
    assert(step_at(a, c, f, lbp_of(op) as int, q) == Out::Done(g, r));
    assert forall|m: int| 0 <= m < g.m_spine implies #[trigger] parse_at(a, c, m) == loop_at(
        a,
        c,
        m,
        g,
        g.m_spine,
        c + nt(g),
    ) by {
        assert(parse_at(a, c, m) == loop_at(a, c, m, f, f.m_spine, q));
        assert(min_of(f.m_spine, lb(a, q)) == g.m_spine);
    }
}

} // verus!
