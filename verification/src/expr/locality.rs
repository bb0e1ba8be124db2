//! Locality: parsing looks at the tokens an expression spans and at the
//! binding power of the token after it, and at nothing else.

use vstd::prelude::*;

use crate::expr::grammar::{
    lb, list_at, loop_at, min_of, no_spine, nud_at, parse_at, stamp, state_ok, step_at, toks_ok,
    Form, Out, OutSeq,
};
use crate::expr::lexer::{Tok, TokenKind};
use crate::expr::op::{chain_kind, postfix_kind, prefix_rbp_of, rbp_of};
use crate::expr::placement::{lemma_loop, lemma_nud, lemma_parse, lemma_step};

verus! {

/// `y` is `x` moved by `e` bytes.
pub open spec fn same_tok(x: Tok, y: Tok, e: int) -> bool {
    &&& x.kind == y.kind
    &&& x.text == y.text
    &&& y.start == x.start + e
    &&& y.end == x.end + e
}

/// Tokens `lo..hi` of `a` stand `d` tokens and `e` bytes further on in `b`,
/// and what follows them binds equally tightly.
pub open spec fn agree(a: Seq<Tok>, b: Seq<Tok>, lo: int, hi: int, d: int, e: int) -> bool {
    &&& 0 <= lo <= hi < a.len()
    &&& 0 <= lo + d
    &&& hi + d < b.len()
    &&& forall|i: int| lo <= i < hi ==> same_tok(#[trigger] a[i], b[i + d], e)
    &&& lb(a, hi) == lb(b, hi + d)
}

pub proof fn lemma_local_parse(
    a: Seq<Tok>,
    b: Seq<Tok>,
    lo: int,
    hi: int,
    d: int,
    e: int,
    p: int,
    m: int,
)
    requires
        toks_ok(a),
        toks_ok(b),
        agree(a, b, lo, hi, d, e),
        lo <= p,
        0 <= m < no_spine(),
        parse_at(a, p, m) matches Out::Done(f, q) && q <= hi,
    ensures
        parse_at(a, p, m) matches Out::Done(f, q) && parse_at(b, p + d, m) == Out::Done(f, q + d),
    decreases a.len() - p, 3int,
{
    lemma_parse(a, p, m);
    lemma_nud(a, p);
    if let Out::Done(left, q) = nud_at(a, p) {
        lemma_loop(a, p, m, stamp(left, lb(a, q)), no_spine(), q);
        lemma_loop_grows(a, p, m, stamp(left, lb(a, q)), no_spine(), q);
        lemma_local_nud(a, b, lo, hi, d, e, p);
        lemma_local_loop(a, b, lo, hi, d, e, p, m, stamp(left, lb(a, q)), no_spine(), q);
        assert(lb(a, q) == lb(b, q + d)) by {
            if q < hi {
                assert(same_tok(a[q], b[q + d], e));
            }
        }
    }
}

pub proof fn lemma_local_nud(a: Seq<Tok>, b: Seq<Tok>, lo: int, hi: int, d: int, e: int, p: int)
    requires
        toks_ok(a),
        toks_ok(b),
        agree(a, b, lo, hi, d, e),
        lo <= p,
        nud_at(a, p) matches Out::Done(f, q) && q <= hi,
    ensures
        nud_at(a, p) matches Out::Done(f, q) && nud_at(b, p + d) == Out::Done(f, q + d),
    decreases a.len() - p, 2int,
{
    lemma_nud(a, p);
    let t = a[p];
    if let Out::Done(f, q) = nud_at(a, p) {
        assert(same_tok(a[p], b[p + d], e));
        assert(same_tok(a[q - 1], b[q - 1 + d], e));
        if t.kind == TokenKind::Int || t.kind == TokenKind::Ident {
        } else if t.kind == TokenKind::LParen {
            lemma_parse(a, p + 1, 0);
            lemma_local_parse(a, b, lo, hi, d, e, p + 1, 0);
        } else {
            lemma_parse(a, p + 1, prefix_rbp_of(t.kind) as int);
            lemma_local_parse(a, b, lo, hi, d, e, p + 1, prefix_rbp_of(t.kind) as int);
        }
    }
}

proof fn lemma_local_loop(
    a: Seq<Tok>,
    b: Seq<Tok>,
    lo: int,
    hi: int,
    d: int,
    e: int,
    p: int,
    m: int,
    left: Form,
    spine: int,
    q: int,
)
    requires
        toks_ok(a),
        toks_ok(b),
        agree(a, b, lo, hi, d, e),
        lo <= p,
        0 <= m < spine,
        state_ok(a, p, left, spine, q),
        loop_at(a, p, m, left, spine, q) matches Out::Done(f, r) && r <= hi,
    ensures
        q <= hi,
        loop_at(a, p, m, left, spine, q) matches Out::Done(f, r) && loop_at(
            b,
            p + d,
            m,
            left,
            spine,
            q + d,
        ) == Out::Done(f, r + d),
    decreases a.len() - q, 2int,
{
    if lb(a, q) <= m {
        if q < hi {
            assert(same_tok(a[q], b[q + d], e));
        }
    } else {
        let s = min_of(spine, lb(a, q));
        lemma_step(a, p, left, spine, q);
        if let Out::Done(next, r) = step_at(a, p, left, s, q) {
            lemma_loop(a, p, m, stamp(next, lb(a, r)), s, r);
            lemma_loop_grows(a, p, m, stamp(next, lb(a, r)), s, r);
            assert(same_tok(a[q], b[q + d], e));
            lemma_local_step(a, b, lo, hi, d, e, p, left, spine, q);
            lemma_local_loop(a, b, lo, hi, d, e, p, m, stamp(next, lb(a, r)), s, r);
            if r < hi {
                assert(same_tok(a[r], b[r + d], e));
            }
        }
    }
}

/// The operator loop ends no earlier than it starts, at a token that binds no
/// tighter than `m`.
proof fn lemma_loop_grows(a: Seq<Tok>, p: int, m: int, left: Form, spine: int, q: int)
    ensures
        loop_at(a, p, m, left, spine, q) matches Out::Done(f, r) ==> q <= r && lb(a, r) <= m,
    decreases a.len() - q,
{
    if 0 <= q < a.len() && lb(a, q) > m {
        let s = min_of(spine, lb(a, q));
        if let Out::Done(next, r) = step_at(a, p, left, s, q) {
            if q < r < a.len() {
                lemma_loop_grows(a, p, m, stamp(next, lb(a, r)), s, r);
            }
        }
    }
}

pub proof fn lemma_local_step(
    a: Seq<Tok>,
    b: Seq<Tok>,
    lo: int,
    hi: int,
    d: int,
    e: int,
    p: int,
    left: Form,
    spine: int,
    q: int,
)
    requires
        toks_ok(a),
        toks_ok(b),
        agree(a, b, lo, hi, d, e),
        lo <= p,
        state_ok(a, p, left, spine, q),
        lb(a, q) > 0,
        step_at(a, p, left, lb(a, q), q) matches Out::Done(f, r) && r <= hi && (r < hi || lb(a, hi)
            < lb(a, q) || a[hi].kind == b[hi + d].kind),
    ensures
        step_at(a, p, left, lb(a, q), q) matches Out::Done(f, r) && step_at(
            b,
            p + d,
            left,
            lb(a, q),
            q + d,
        ) == Out::Done(f, r + d),
    decreases a.len() - q, 1int,
{
    lemma_step(a, p, left, spine, q);
    let k = a[q].kind;
    if k == TokenKind::LParen {
        if a[q + 1].kind == TokenKind::RParen {
            lemma_local_call_empty(a, b, lo, hi, d, e, p, left, lb(a, q), q);
        } else {
            lemma_local_call(a, b, lo, hi, d, e, p, left, lb(a, q), q);
        }
    } else if k == TokenKind::LBracket {
        lemma_local_index(a, b, lo, hi, d, e, p, left, lb(a, q), q);
    } else if k == TokenKind::Dot {
        lemma_local_member(a, b, lo, hi, d, e, p, left, lb(a, q), q);
    } else if k == TokenKind::Question {
        lemma_local_ternary(a, b, lo, hi, d, e, p, left, lb(a, q), q);
    } else if chain_kind(k) {
        lemma_local_chain(a, b, lo, hi, d, e, p, left, lb(a, q), q);
    } else {
        lemma_local_binary(a, b, lo, hi, d, e, p, left, lb(a, q), q);
    }
}

#[verifier::rlimit(60)]
proof fn lemma_local_call_empty(
    a: Seq<Tok>,
    b: Seq<Tok>,
    lo: int,
    hi: int,
    d: int,
    e: int,
    p: int,
    left: Form,
    spine: int,
    q: int,
)
    requires
        toks_ok(a),
        toks_ok(b),
        agree(a, b, lo, hi, d, e),
        lo <= p < q,
        a[q].kind == TokenKind::LParen,
        a[q + 1].kind == TokenKind::RParen,
        step_at(a, p, left, spine, q) matches Out::Done(f, r) && q < r <= hi,
    ensures
        step_at(a, p, left, spine, q) matches Out::Done(f, r) && step_at(
            b,
            p + d,
            left,
            spine,
            q + d,
        ) == Out::Done(f, r + d),
    decreases a.len() - q, 0int,
{
    let k = a[q].kind;
    if let Out::Done(f, r) = step_at(a, p, left, spine, q) {
        assert(same_tok(a[p], b[p + d], e));
        assert(same_tok(a[q], b[q + d], e));
        assert(same_tok(a[r - 1], b[r - 1 + d], e));
        assert(same_tok(a[q + 1], b[q + 1 + d], e));
    }
}

#[verifier::rlimit(60)]
proof fn lemma_local_call(
    a: Seq<Tok>,
    b: Seq<Tok>,
    lo: int,
    hi: int,
    d: int,
    e: int,
    p: int,
    left: Form,
    spine: int,
    q: int,
)
    requires
        toks_ok(a),
        toks_ok(b),
        agree(a, b, lo, hi, d, e),
        lo <= p < q,
        a[q].kind == TokenKind::LParen,
        a[q + 1].kind != TokenKind::RParen,
        step_at(a, p, left, spine, q) matches Out::Done(f, r) && q < r <= hi,
    ensures
        step_at(a, p, left, spine, q) matches Out::Done(f, r) && step_at(
            b,
            p + d,
            left,
            spine,
            q + d,
        ) == Out::Done(f, r + d),
    decreases a.len() - q, 0int,
{
    let k = a[q].kind;
    if let Out::Done(f, r) = step_at(a, p, left, spine, q) {
        assert(same_tok(a[p], b[p + d], e));
        assert(same_tok(a[q], b[q + d], e));
        assert(same_tok(a[r - 1], b[r - 1 + d], e));
        let none = Seq::<Form>::empty();
        lemma_list_grows(a, q + 1, TokenKind::Comma, 0, none);
        if let OutSeq::Done(args, z) = list_at(a, q + 1, TokenKind::Comma, 0, none) {
            assert(z + 1 == r);
            assert(same_tok(a[q + 1], b[q + 1 + d], e));
            assert(same_tok(a[z], b[z + d], e));
            lemma_local_list(a, b, lo, hi, d, e, q + 1, TokenKind::Comma, 0, none);
            assert(list_at(b, q + d + 1, TokenKind::Comma, 0, none) == OutSeq::Done(args, z + d));
        }
    }
}

#[verifier::rlimit(60)]
proof fn lemma_local_index(
    a: Seq<Tok>,
    b: Seq<Tok>,
    lo: int,
    hi: int,
    d: int,
    e: int,
    p: int,
    left: Form,
    spine: int,
    q: int,
)
    requires
        toks_ok(a),
        toks_ok(b),
        agree(a, b, lo, hi, d, e),
        lo <= p < q,
        a[q].kind == TokenKind::LBracket,
        step_at(a, p, left, spine, q) matches Out::Done(f, r) && q < r <= hi,
    ensures
        step_at(a, p, left, spine, q) matches Out::Done(f, r) && step_at(
            b,
            p + d,
            left,
            spine,
            q + d,
        ) == Out::Done(f, r + d),
    decreases a.len() - q, 0int,
{
    let k = a[q].kind;
    if let Out::Done(f, r) = step_at(a, p, left, spine, q) {
        assert(same_tok(a[p], b[p + d], e));
        assert(same_tok(a[q], b[q + d], e));
        assert(same_tok(a[r - 1], b[r - 1 + d], e));
        lemma_parse(a, q + 1, 0);
        lemma_local_parse(a, b, lo, hi, d, e, q + 1, 0);
    }
}

#[verifier::rlimit(60)]
proof fn lemma_local_member(
    a: Seq<Tok>,
    b: Seq<Tok>,
    lo: int,
    hi: int,
    d: int,
    e: int,
    p: int,
    left: Form,
    spine: int,
    q: int,
)
    requires
        toks_ok(a),
        toks_ok(b),
        agree(a, b, lo, hi, d, e),
        lo <= p < q,
        a[q].kind == TokenKind::Dot,
        step_at(a, p, left, spine, q) matches Out::Done(f, r) && q < r <= hi,
    ensures
        step_at(a, p, left, spine, q) matches Out::Done(f, r) && step_at(
            b,
            p + d,
            left,
            spine,
            q + d,
        ) == Out::Done(f, r + d),
    decreases a.len() - q, 0int,
{
    let k = a[q].kind;
    if let Out::Done(f, r) = step_at(a, p, left, spine, q) {
        assert(same_tok(a[p], b[p + d], e));
        assert(same_tok(a[q], b[q + d], e));
        assert(same_tok(a[r - 1], b[r - 1 + d], e));
        assert(same_tok(a[q + 1], b[q + 1 + d], e));
    }
}

#[verifier::rlimit(60)]
proof fn lemma_local_ternary(
    a: Seq<Tok>,
    b: Seq<Tok>,
    lo: int,
    hi: int,
    d: int,
    e: int,
    p: int,
    left: Form,
    spine: int,
    q: int,
)
    requires
        toks_ok(a),
        toks_ok(b),
        agree(a, b, lo, hi, d, e),
        lo <= p < q,
        a[q].kind == TokenKind::Question,
        step_at(a, p, left, spine, q) matches Out::Done(f, r) && q < r <= hi,
    ensures
        step_at(a, p, left, spine, q) matches Out::Done(f, r) && step_at(
            b,
            p + d,
            left,
            spine,
            q + d,
        ) == Out::Done(f, r + d),
    decreases a.len() - q, 0int,
{
    let k = a[q].kind;
    if let Out::Done(f, r) = step_at(a, p, left, spine, q) {
        assert(same_tok(a[p], b[p + d], e));
        assert(same_tok(a[q], b[q + d], e));
        assert(same_tok(a[r - 1], b[r - 1 + d], e));
        lemma_parse(a, q + 1, 0);
        if let Out::Done(then, z) = parse_at(a, q + 1, 0) {
            lemma_parse(a, z + 1, rbp_of(k) as int);
            lemma_local_parse(a, b, lo, hi, d, e, q + 1, 0);
            lemma_local_parse(a, b, lo, hi, d, e, z + 1, rbp_of(k) as int);
            assert(same_tok(a[z], b[z + d], e));
        }
    }
}

#[verifier::rlimit(60)]
proof fn lemma_local_chain(
    a: Seq<Tok>,
    b: Seq<Tok>,
    lo: int,
    hi: int,
    d: int,
    e: int,
    p: int,
    left: Form,
    spine: int,
    q: int,
)
    requires
        toks_ok(a),
        toks_ok(b),
        agree(a, b, lo, hi, d, e),
        lo <= p < q,
        chain_kind(a[q].kind),
        step_at(a, p, left, spine, q) matches Out::Done(f, r) && q < r <= hi && (r < hi || lb(a, hi)
            < lb(a, q) || a[hi].kind == b[hi + d].kind),
    ensures
        step_at(a, p, left, spine, q) matches Out::Done(f, r) && step_at(
            b,
            p + d,
            left,
            spine,
            q + d,
        ) == Out::Done(f, r + d),
    decreases a.len() - q, 0int,
{
    let k = a[q].kind;
    if let Out::Done(f, r) = step_at(a, p, left, spine, q) {
        assert(same_tok(a[p], b[p + d], e));
        assert(same_tok(a[q], b[q + d], e));
        assert(same_tok(a[r - 1], b[r - 1 + d], e));
        lemma_list_grows(a, q + 1, k, rbp_of(k) as int, seq![left]);
        lemma_local_list(a, b, lo, hi, d, e, q + 1, k, rbp_of(k) as int, seq![left]);
    }
}

#[verifier::rlimit(60)]
proof fn lemma_local_binary(
    a: Seq<Tok>,
    b: Seq<Tok>,
    lo: int,
    hi: int,
    d: int,
    e: int,
    p: int,
    left: Form,
    spine: int,
    q: int,
)
    requires
        toks_ok(a),
        toks_ok(b),
        agree(a, b, lo, hi, d, e),
        lo <= p < q,
        !postfix_kind(a[q].kind),
        a[q].kind != TokenKind::Question,
        !chain_kind(a[q].kind),
        step_at(a, p, left, spine, q) matches Out::Done(f, r) && q < r <= hi,
    ensures
        step_at(a, p, left, spine, q) matches Out::Done(f, r) && step_at(
            b,
            p + d,
            left,
            spine,
            q + d,
        ) == Out::Done(f, r + d),
    decreases a.len() - q, 0int,
{
    let k = a[q].kind;
    if let Out::Done(f, r) = step_at(a, p, left, spine, q) {
        assert(same_tok(a[p], b[p + d], e));
        assert(same_tok(a[q], b[q + d], e));
        assert(same_tok(a[r - 1], b[r - 1 + d], e));
        lemma_parse(a, q + 1, rbp_of(k) as int);
        lemma_local_parse(a, b, lo, hi, d, e, q + 1, rbp_of(k) as int);
    }
}

pub proof fn lemma_list_grows(a: Seq<Tok>, q: int, sep: TokenKind, m: int, acc: Seq<Form>)
    ensures
        list_at(a, q, sep, m, acc) matches OutSeq::Done(fs, r) ==> 0 <= q < r < a.len() && a[r].kind
            != sep,
    decreases a.len() - q,
{
    if let Out::Done(f, r) = parse_at(a, q, m) {
        if 0 <= q < r < a.len() && a[r].kind == sep {
            lemma_list_grows(a, r + 1, sep, m, acc.push(f));
        }
    }
}

proof fn lemma_local_list(
    a: Seq<Tok>,
    b: Seq<Tok>,
    lo: int,
    hi: int,
    d: int,
    e: int,
    q: int,
    sep: TokenKind,
    m: int,
    acc: Seq<Form>,
)
    requires
        toks_ok(a),
        toks_ok(b),
        agree(a, b, lo, hi, d, e),
        lo <= q,
        0 <= m < no_spine(),
        list_at(a, q, sep, m, acc) matches OutSeq::Done(fs, r) && r <= hi && (r < hi
            || b[hi + d].kind != sep),
    ensures
        list_at(a, q, sep, m, acc) matches OutSeq::Done(fs, r) && list_at(b, q + d, sep, m, acc)
            == OutSeq::Done(fs, r + d),
    decreases a.len() - q, 4int,
{
    lemma_parse(a, q, m);
    lemma_list_grows(a, q, sep, m, acc);
    if let Out::Done(f, r) = parse_at(a, q, m) {
        if a[r].kind == sep {
            lemma_list_grows(a, r + 1, sep, m, acc.push(f));
            lemma_local_parse(a, b, lo, hi, d, e, q, m);
            assert(same_tok(a[r], b[r + d], e));
            lemma_local_list(a, b, lo, hi, d, e, r + 1, sep, m, acc.push(f));
        } else {
            lemma_local_parse(a, b, lo, hi, d, e, q, m);
            if r < hi {
                assert(same_tok(a[r], b[r + d], e));
            }
        }
    }
}

} // verus!
