//! What parsing says of a stream depends on the kinds and texts of its tokens,
//! and not on where they stand.

use vstd::prelude::*;

use crate::expr::grammar::{
    lb, list_at, loop_at, min_of, no_spine, nud_at, parse_at, parse_stream, stamp, state_ok,
    step_at, toks_ok, Form, FormKind, Out, OutSeq,
};
use crate::expr::lexer::{Tok, TokenKind};
use crate::expr::op::{chain_kind, prefix_rbp_of, rbp_of};
use crate::expr::placement::{lemma_loop, lemma_nud, lemma_parse, lemma_step};
use crate::expr::unparse::{form_text, list_text};

verus! {

/// The same expression, wherever it stands: all but widths and bands agrees.
pub open spec fn like(f: Form, g: Form) -> bool
    decreases f,
{
    match f.kind {
        FormKind::Atom(s) => g.kind == FormKind::Atom(s),
        FormKind::Prefix { op, child } => g.kind matches FormKind::Prefix { op: o, child: c } && o
            == op && like(*child, *c),
        FormKind::Binary { op, left, right } => g.kind matches FormKind::Binary {
            op: o,
            left: l,
            right: r,
        } && o == op && like(*left, *l) && like(*right, *r),
        FormKind::Chain { op, operands } => g.kind matches FormKind::Chain {
            op: o,
            operands: gs,
        } && o == op && gs.len() == operands.len() && forall|i: int|
            0 <= i < operands.len() ==> like(#[trigger] operands[i], gs[i]),
        FormKind::Ternary { cond, then, else_ } => g.kind matches FormKind::Ternary {
            cond: c,
            then: t,
            else_: e,
        } && like(*cond, *c) && like(*then, *t) && like(*else_, *e),
        FormKind::Paren { inner } => g.kind matches FormKind::Paren { inner: i } && like(*inner, *i),
        FormKind::Call { callee, args } => g.kind matches FormKind::Call { callee: c, args: gs }
            && like(*callee, *c) && gs.len() == args.len() && forall|i: int|
            0 <= i < args.len() ==> like(#[trigger] args[i], gs[i]),
        FormKind::Index { array, index } => g.kind matches FormKind::Index { array: x, index: y }
            && like(*array, *x) && like(*index, *y),
        FormKind::Member { object, field } => g.kind matches FormKind::Member {
            object: o,
            field: s,
        } && like(*object, *o) && s == field,
        FormKind::Missing => g.kind is Missing,
        FormKind::Error { skipped } => g.kind == FormKind::Error { skipped },
    }
}

pub open spec fn like_lists(fs: Seq<Form>, gs: Seq<Form>) -> bool {
    &&& gs.len() == fs.len()
    &&& forall|i: int| 0 <= i < fs.len() ==> like(#[trigger] fs[i], gs[i])
}

/// Like expressions are written alike.
pub proof fn law_like_text(f: Form, g: Form)
    requires
        like(f, g),
    ensures
        form_text(f) == form_text(g),
    decreases f, 1int,
{
    match f.kind {
        FormKind::Atom(s) => {},
        FormKind::Prefix { op, child } => {
            law_like_text(*child, *g.kind->Prefix_child);
        },
        FormKind::Binary { op, left, right } => {
            law_like_text(*left, *g.kind->Binary_left);
            law_like_text(*right, *g.kind->Binary_right);
        },
        FormKind::Chain { op, operands } => {
            let gs = g.kind->Chain_operands;
            let sep = " "@ + crate::expr::unparse::token_chars(op) + " "@;
            lemma_like_list_text(operands, gs, operands.len() as int, sep);
        },
        FormKind::Ternary { cond, then, else_ } => {
            law_like_text(*cond, *g.kind->Ternary_cond);
            law_like_text(*then, *g.kind->Ternary_then);
            law_like_text(*else_, *g.kind->Ternary_else_);
        },
        FormKind::Paren { inner } => {
            law_like_text(*inner, *g.kind->Paren_inner);
        },
        FormKind::Call { callee, args } => {
            law_like_text(*callee, *g.kind->Call_callee);
            lemma_like_list_text(args, g.kind->Call_args, args.len() as int, ", "@);
        },
        FormKind::Index { array, index } => {
            law_like_text(*array, *g.kind->Index_array);
            law_like_text(*index, *g.kind->Index_index);
        },
        FormKind::Member { object, field } => {
            law_like_text(*object, *g.kind->Member_object);
        },
        FormKind::Missing => {},
        FormKind::Error { skipped } => {},
    }
}

proof fn lemma_like_list_text(fs: Seq<Form>, gs: Seq<Form>, k: int, sep: Seq<char>)
    requires
        like_lists(fs, gs),
        0 <= k <= fs.len(),
    ensures
        list_text(fs, k, sep) == list_text(gs, k, sep),
    decreases fs, k,
{
    if k > 0 {
        law_like_text(fs[k - 1], gs[k - 1]);
        lemma_like_list_text(fs, gs, k - 1, sep);
    }
}

/// Two tokens of the same kind and text.
pub open spec fn same_word(x: Tok, y: Tok) -> bool {
    x.kind == y.kind && x.text == y.text
}

/// Tokens `lo..hi` of `a` are those of `b` from `lo + d` on, and `b` then ends
/// or goes on with the same kind.
pub open spec fn mirrors(a: Seq<Tok>, b: Seq<Tok>, lo: int, hi: int, d: int) -> bool {
    &&& 0 <= lo <= hi < a.len()
    &&& 0 <= lo + d
    &&& hi + d < b.len()
    &&& forall|i: int| lo <= i < hi ==> same_word(#[trigger] a[i], b[i + d])
    &&& b[hi + d].kind == TokenKind::Eof || b[hi + d].kind == a[hi].kind
}

/// `y` is `x`, `d` tokens on.
pub open spec fn mirrored(x: Out, y: Out, d: int) -> bool {
    x matches Out::Done(f, q) && y matches Out::Done(g, r) && r == q + d && like(f, g)
}

/// What parsing `a` gives, parsing `b` gives where it mirrors `a`.
pub proof fn lemma_mirror_parse(
    a: Seq<Tok>,
    b: Seq<Tok>,
    lo: int,
    hi: int,
    d: int,
    p: int,
    m: int,
)
    requires
        toks_ok(a),
        mirrors(a, b, lo, hi, d),
        lo <= p,
        0 <= m < no_spine(),
        parse_at(a, p, m) matches Out::Done(f, q) && q <= hi,
    ensures
        mirrored(parse_at(a, p, m), parse_at(b, p + d, m), d),
    decreases a.len() - p, 3int,
{
    lemma_parse(a, p, m);
    lemma_nud(a, p);
    if let Out::Done(left, q) = nud_at(a, p) {
        let first = stamp(left, lb(a, q));
        lemma_loop(a, p, m, first, no_spine(), q);
        lemma_grows(a, p, m, first, no_spine(), q);
        lemma_mirror_nud(a, b, lo, hi, d, p);
        if let Out::Done(other, r) = nud_at(b, p + d) {
            lemma_mirror_loop(
                a,
                b,
                lo,
                hi,
                d,
                p,
                m,
                first,
                stamp(other, lb(b, r)),
                no_spine(),
                q,
            );
        }
    }
}

/// The operator loop ends no earlier than it starts.
proof fn lemma_grows(a: Seq<Tok>, p: int, m: int, left: Form, spine: int, q: int)
    ensures
        loop_at(a, p, m, left, spine, q) matches Out::Done(f, r) ==> q <= r,
    decreases a.len() - q,
{
    if 0 <= q < a.len() && lb(a, q) > m {
        let s = min_of(spine, lb(a, q));
        if let Out::Done(next, r) = step_at(a, p, left, s, q) {
            if q < r < a.len() {
                lemma_grows(a, p, m, stamp(next, lb(a, r)), s, r);
            }
        }
    }
}

proof fn lemma_list_grows(a: Seq<Tok>, q: int, sep: TokenKind, m: int, acc: Seq<Form>)
    requires
        toks_ok(a),
        0 <= m < no_spine(),
    ensures
        list_at(a, q, sep, m, acc) matches OutSeq::Done(fs, r) ==> 0 <= q < r < a.len() && lb(a, r)
            <= m && a[r].kind != sep && fs.len() > acc.len(),
        list_at(a, q, sep, m, acc) is Done ==> (parse_at(a, q, m) matches Out::Done(f, r) && r
            <= list_at(a, q, sep, m, acc)->Done_1),
    decreases a.len() - q,
{
    lemma_parse(a, q, m);
    if let Out::Done(f, r) = parse_at(a, q, m) {
        if 0 <= q < r < a.len() && a[r].kind == sep {
            lemma_list_grows(a, r + 1, sep, m, acc.push(f));
        }
    }
}

proof fn lemma_mirror_nud(a: Seq<Tok>, b: Seq<Tok>, lo: int, hi: int, d: int, p: int)
    requires
        toks_ok(a),
        mirrors(a, b, lo, hi, d),
        lo <= p,
        nud_at(a, p) matches Out::Done(f, q) && q <= hi,
    ensures
        mirrored(nud_at(a, p), nud_at(b, p + d), d),
    decreases a.len() - p, 2int,
{
    lemma_nud(a, p);
    let t = a[p];
    if let Out::Done(f, q) = nud_at(a, p) {
        assert(same_word(a[p], b[p + d]));
        assert(same_word(a[q - 1], b[q - 1 + d]));
        if t.kind == TokenKind::Int || t.kind == TokenKind::Ident {
        } else if t.kind == TokenKind::LParen {
            lemma_parse(a, p + 1, 0);
            lemma_mirror_parse(a, b, lo, hi, d, p + 1, 0);
        } else {
            lemma_parse(a, p + 1, prefix_rbp_of(t.kind) as int);
            lemma_mirror_parse(a, b, lo, hi, d, p + 1, prefix_rbp_of(t.kind) as int);
        }
    }
}

proof fn lemma_mirror_loop(
    a: Seq<Tok>,
    b: Seq<Tok>,
    lo: int,
    hi: int,
    d: int,
    p: int,
    m: int,
    left: Form,
    other: Form,
    spine: int,
    q: int,
)
    requires
        toks_ok(a),
        mirrors(a, b, lo, hi, d),
        lo <= p,
        0 <= m < spine,
        state_ok(a, p, left, spine, q),
        like(left, other),
        loop_at(a, p, m, left, spine, q) matches Out::Done(f, r) && r <= hi,
    ensures
        mirrored(
            loop_at(a, p, m, left, spine, q),
            loop_at(b, p + d, m, other, spine, q + d),
            d,
        ),
    decreases a.len() - q, 2int,
{
    lemma_grows(a, p, m, left, spine, q);
    if q < hi {
        assert(same_word(a[q], b[q + d]));
    }
    if lb(a, q) > m {
        let s = min_of(spine, lb(a, q));
        lemma_step(a, p, left, spine, q);
        if let Out::Done(next, r) = step_at(a, p, left, s, q) {
            lemma_loop(a, p, m, stamp(next, lb(a, r)), s, r);
            lemma_grows(a, p, m, stamp(next, lb(a, r)), s, r);
            lemma_mirror_step(a, b, lo, hi, d, p, left, other, spine, q);
            if let Out::Done(then, z) = step_at(b, p + d, other, s, q + d) {
                lemma_mirror_loop(
                    a,
                    b,
                    lo,
                    hi,
                    d,
                    p,
                    m,
                    stamp(next, lb(a, r)),
                    stamp(then, lb(b, z)),
                    s,
                    r,
                );
            }
        }
    }
}

#[verifier::rlimit(60)]
proof fn lemma_mirror_step(
    a: Seq<Tok>,
    b: Seq<Tok>,
    lo: int,
    hi: int,
    d: int,
    p: int,
    left: Form,
    other: Form,
    spine: int,
    q: int,
)
    requires
        toks_ok(a),
        mirrors(a, b, lo, hi, d),
        lo <= p,
        state_ok(a, p, left, spine, q),
        like(left, other),
        lb(a, q) > 0,
        step_at(a, p, left, lb(a, q), q) matches Out::Done(f, r) && r <= hi,
    ensures
        mirrored(
            step_at(a, p, left, lb(a, q), q),
            step_at(b, p + d, other, lb(a, q), q + d),
            d,
        ),
    decreases a.len() - q, 1int,
{
    lemma_step(a, p, left, spine, q);
    let k = a[q].kind;
    let s = lb(a, q);
    if let Out::Done(f, r) = step_at(a, p, left, s, q) {
        assert(same_word(a[q], b[q + d]));
        assert(same_word(a[r - 1], b[r - 1 + d]));
        if k == TokenKind::LParen {
            if a[q + 1].kind == TokenKind::RParen {
                assert(same_word(a[q + 1], b[q + 1 + d]));
            } else {
                let none = Seq::<Form>::empty();
                lemma_list_grows(a, q + 1, TokenKind::Comma, 0, none);
                if let OutSeq::Done(args, z) = list_at(a, q + 1, TokenKind::Comma, 0, none) {
                    assert(same_word(a[q + 1], b[q + 1 + d]));
                    assert(same_word(a[z], b[z + d]));
                    lemma_mirror_list(a, b, lo, hi, d, q + 1, TokenKind::Comma, 0, none, none);
                }
            }
        } else if k == TokenKind::LBracket {
            lemma_parse(a, q + 1, 0);
            lemma_mirror_parse(a, b, lo, hi, d, q + 1, 0);
        } else if k == TokenKind::Dot {
            assert(same_word(a[q + 1], b[q + 1 + d]));
        } else if k == TokenKind::Question {
            lemma_parse(a, q + 1, 0);
            if let Out::Done(then, z) = parse_at(a, q + 1, 0) {
                lemma_parse(a, z + 1, rbp_of(k) as int);
                lemma_mirror_parse(a, b, lo, hi, d, q + 1, 0);
                assert(same_word(a[z], b[z + d]));
                lemma_mirror_parse(a, b, lo, hi, d, z + 1, rbp_of(k) as int);
            }
        } else if chain_kind(k) {
            let (acc, bcc) = (seq![left], seq![other]);
            lemma_list_grows(a, q + 1, k, rbp_of(k) as int, acc);
            lemma_mirror_list(a, b, lo, hi, d, q + 1, k, rbp_of(k) as int, acc, bcc);
        } else {
            lemma_parse(a, q + 1, rbp_of(k) as int);
            lemma_mirror_parse(a, b, lo, hi, d, q + 1, rbp_of(k) as int);
        }
    }
}

proof fn lemma_mirror_list(
    a: Seq<Tok>,
    b: Seq<Tok>,
    lo: int,
    hi: int,
    d: int,
    q: int,
    sep: TokenKind,
    m: int,
    acc: Seq<Form>,
    bcc: Seq<Form>,
)
    requires
        toks_ok(a),
        mirrors(a, b, lo, hi, d),
        lo <= q,
        0 <= m < no_spine(),
        sep != TokenKind::Eof,
        like_lists(acc, bcc),
        list_at(a, q, sep, m, acc) matches OutSeq::Done(fs, r) && r <= hi,
    ensures
        list_at(a, q, sep, m, acc) matches OutSeq::Done(fs, r) && list_at(
            b,
            q + d,
            sep,
            m,
            bcc,
        ) matches OutSeq::Done(gs, z) && z == r + d && like_lists(fs, gs),
    decreases a.len() - q, 4int,
{
    lemma_parse(a, q, m);
    lemma_list_grows(a, q, sep, m, acc);
    if let Out::Done(f, r) = parse_at(a, q, m) {
        lemma_mirror_parse(a, b, lo, hi, d, q, m);
        if let Out::Done(g, z) = parse_at(b, q + d, m) {
            let (next, other) = (acc.push(f), bcc.push(g));
            assert(like_lists(next, other));
            if r < hi {
                assert(same_word(a[r], b[r + d]));
            }
            if a[r].kind == sep {
                lemma_list_grows(a, r + 1, sep, m, next);
                lemma_mirror_list(a, b, lo, hi, d, r + 1, sep, m, next, other);
            }
        }
    }
}

/// Two streams of the same kinds and texts, one after the other, parse to the
/// same expression or both not at all.
pub proof fn law_stream_by_words(a: Seq<Tok>, b: Seq<Tok>)
    requires
        toks_ok(a),
        toks_ok(b),
        a.len() == b.len(),
        forall|i: int| 0 <= i < a.len() - 1 ==> same_word(#[trigger] a[i], b[i]),
    ensures
        parse_stream(a) is Ok <==> parse_stream(b) is Ok,
        parse_stream(a) is Ok ==> like(parse_stream(a)->Ok_0, parse_stream(b)->Ok_0),
{
    let n = a.len() - 1;
    lemma_parse(a, 0, 0);
    lemma_parse(b, 0, 0);
    assert(mirrors(a, b, 0, n, 0));
    assert(mirrors(b, a, 0, n, 0)) by {
        assert forall|i: int| 0 <= i < n implies same_word(#[trigger] b[i], a[i + 0]) by {
            assert(same_word(a[i], b[i]));
        }
    }
    if let Out::Done(f, q) = parse_at(a, 0, 0) {
        lemma_mirror_parse(a, b, 0, n, 0, 0, 0);
        if q < n {
            assert(same_word(a[q], b[q]));
        }
    }
    if let Out::Done(f, q) = parse_at(b, 0, 0) {
        lemma_mirror_parse(b, a, 0, n, 0, 0, 0);
        if q < n {
            assert(same_word(a[q], b[q]));
        }
    }
}

} // verus!
