//! An expression parsed inside a text is what its own text parses to.

use vstd::prelude::*;

use crate::expr::ast::Shape;
use crate::expr::grammar::{
    lb, loop_at, min_of, no_spine, nud_at, parse_at, parse_stream, stamp, step_at, toks_ok, Form,
    Out,
};
use crate::expr::lexer::{
    digits_end, ident_end, is_digit, is_ident_byte, is_ident_start, lemma_digits_end,
    lemma_ident_end, lemma_lex_from, lemma_lex_suffix, lemma_next_tok, lemma_tok_at, lex, lex_from,
    next_tok, short_kind, single_kind, tok_at, Tok, TokenKind,
};
use crate::expr::locality::same_tok;
use crate::expr::mirror::{law_like_text, lemma_mirror_parse, like, mirrors, same_word};
use crate::expr::placement::lemma_parse;
use crate::expr::pratt_core::lemma_lex_toks;
use crate::expr::shape::norm;
use crate::expr::unparse::form_text;

verus! {

/// Digits that end by byte `y` end there in bytes `x..y` alone.
proof fn lemma_cut_digits(s: Seq<u8>, x: int, y: int, i: int)
    requires
        0 <= x <= i <= y <= s.len(),
        digits_end(s, i) <= y,
    ensures
        digits_end(s.subrange(x, y), i - x) == digits_end(s, i) - x,
    decreases y - i,
{
    let u = s.subrange(x, y);
    if i < y && is_digit(s[i]) {
        assert(u[i - x] == s[i]);
        lemma_cut_digits(s, x, y, i + 1);
    } else if i < s.len() && is_digit(s[i]) {
        lemma_digits_end(s, i + 1);
    } else if i < y {
        assert(u[i - x] == s[i]);
    }
}

proof fn lemma_cut_ident(s: Seq<u8>, x: int, y: int, i: int)
    requires
        0 <= x <= i <= y <= s.len(),
        ident_end(s, i) <= y,
    ensures
        ident_end(s.subrange(x, y), i - x) == ident_end(s, i) - x,
    decreases y - i,
{
    let u = s.subrange(x, y);
    if i < y && is_ident_byte(s[i]) {
        assert(u[i - x] == s[i]);
        lemma_cut_ident(s, x, y, i + 1);
    } else if i < s.len() && is_ident_byte(s[i]) {
        lemma_ident_end(s, i + 1);
    } else if i < y {
        assert(u[i - x] == s[i]);
    }
}

/// A token that ends by byte `y` is one of bytes `x..y` alone.
pub proof fn lemma_cut_tok(s: Seq<u8>, x: int, y: int, i: int)
    requires
        0 <= x <= i < y <= s.len(),
        tok_at(s, i) matches Some((k, e)) ==> e <= y,
    ensures
        tok_at(s.subrange(x, y), i - x) == (match tok_at(s, i) {
            Some((k, e)) => Some((k, e - x)),
            None => None,
        }),
{
    let u = s.subrange(x, y);
    assert(u[i - x] == s[i]);
    if i + 1 < y {
        assert(u[i + 1 - x] == s[i + 1]);
    }
    let b = s[i];
    if single_kind(b) is None && short_kind(b) is None {
        if is_digit(b) {
            lemma_cut_digits(s, x, y, i + 1);
        } else if is_ident_start(b) {
            lemma_cut_ident(s, x, y, i + 1);
        }
    }
}

/// The `n` tokens from byte `i` to byte `y` are those of bytes `x..y` alone.
proof fn lemma_cut_stream(s: Seq<u8>, x: int, y: int, i: int, n: int)
    requires
        0 <= x <= i <= y <= s.len(),
        0 <= n < lex_from(s, i).len(),
        forall|k: int| 0 <= k < n ==> (#[trigger] lex_from(s, i)[k]).end <= y,
        n == 0 ==> i == y,
        n > 0 ==> lex_from(s, i)[n - 1].end == y,
    ensures
        lex_from(s.subrange(x, y), i - x).len() == n + 1,
        forall|k: int|
            0 <= k < n ==> same_tok(
                #[trigger] lex_from(s, i)[k],
                lex_from(s.subrange(x, y), i - x)[k],
                -x,
            ),
    decreases y - i,
{
    let u = s.subrange(x, y);
    let a = lex_from(s, i);
    let b = lex_from(u, i - x);
    lemma_lex_from(s, i);
    lemma_lex_from(u, i - x);
    lemma_next_tok(s, i);
    lemma_next_tok(u, i - x);
    if n > 0 {
        assert(a[0].end <= y);
        assert(a[0] == next_tok(s, i));
        assert(i < y);
        lemma_tok_at(s, i);
        match tok_at(s, i) {
            Some((k, e)) => {
                lemma_cut_tok(s, x, y, i);
                let (v, w) = (next_tok(s, i), next_tok(u, i - x));
                assert(a == seq![v] + lex_from(s, e));
                assert(b == seq![w] + lex_from(u, e - x));
                assert(u.subrange(i - x, e - x) =~= s.subrange(i, e));
                assert forall|j: int| 0 <= j < n - 1 implies (#[trigger] lex_from(s, e)[j]).end
                    <= y by {
                    assert(a[j + 1] == lex_from(s, e)[j]);
                }
                if n > 1 {
                    assert(a[n - 1] == lex_from(s, e)[n - 2]);
                }
                lemma_cut_stream(s, x, y, e, n - 1);
                assert forall|j: int| 0 <= j < n implies same_tok(#[trigger] a[j], b[j], -x) by {
                    if j > 0 {
                        assert(a[j] == lex_from(s, e)[j - 1]);
                        assert(b[j] == lex_from(u, e - x)[j - 1]);
                    }
                }
            },
            None => {
                assert(i + 1 <= a[0].start);
                lemma_cut_tok(s, x, y, i);
                assert(next_tok(s, i) == next_tok(s, i + 1));
                assert(next_tok(u, i - x) == next_tok(u, i + 1 - x));
                lemma_next_tok(s, i + 1);
                lemma_next_tok(u, i + 1 - x);
                assert(lex_from(s, i + 1) == a);
                assert(lex_from(u, i + 1 - x) == b);
                lemma_cut_stream(s, x, y, i + 1, n);
            },
        }
    }
}

/// A loop that stops at the end of the stream stops there at any precedence
/// below.
proof fn lemma_loop_lower(a: Seq<Tok>, p: int, m: int, left: Form, spine: int, q: int)
    requires
        0 <= m,
    ensures
        loop_at(a, p, m, left, spine, q) matches Out::Done(f, r) ==> lb(a, r) == 0 ==> loop_at(
            a,
            p,
            0,
            left,
            spine,
            q,
        ) == loop_at(a, p, m, left, spine, q),
    decreases a.len() - q,
{
    if 0 <= q < a.len() && lb(a, q) > m {
        let s = min_of(spine, lb(a, q));
        if let Out::Done(next, r) = step_at(a, p, left, s, q) {
            if q < r < a.len() {
                lemma_loop_lower(a, p, m, stamp(next, lb(a, r)), s, r);
            }
        }
    }
}

/// The tokens `p..q` of a text are those of their own bytes.
proof fn lemma_own_tokens(s: Seq<u8>, p: int, q: int)
    requires
        s.len() <= u32::MAX,
        0 <= p < q < lex(s).len(),
    ensures
        ({
            let a = lex(s);
            let x = a[p].start;
            let y = a[q - 1].end;
            &&& 0 <= x <= y <= s.len()
            &&& toks_ok(lex(s.subrange(x, y)))
            &&& lex(s.subrange(x, y)).len() == q - p + 1
            &&& mirrors(a, lex(s.subrange(x, y)), p, q, -p)
        }),
{
    let a = lex(s);
    lemma_lex_from(s, 0);
    let x = a[p].start;
    let y = a[q - 1].end;
    let u = s.subrange(x, y);
    let b = lex(u);
    assert(a[p].start < a[p].end);
    assert(a[q - 1].start < a[q - 1].end);
    if p < q - 1 {
        assert(a[p].end <= a[q - 1].start);
    }
    lemma_lex_suffix(s, 0, p);
    let c = lex_from(s, x);
    assert(c == a.skip(p));
    assert forall|k: int| 0 <= k < q - p implies (#[trigger] c[k]).end <= y by {
        assert(c[k] == a[p + k]);
        if k < q - p - 1 {
            assert(a[p + k].end <= a[q - 1].start);
        }
    }
    assert(c[q - p - 1] == a[q - 1]);
    lemma_cut_stream(s, x, y, x, q - p);
    lemma_lex_toks(u);
    assert(b.len() == q - p + 1);
    assert forall|i: int| p <= i < q implies same_word(#[trigger] a[i], b[i + -p]) by {
        assert(c[i - p] == a[i]);
        assert(same_tok(c[i - p], lex_from(u, x - x)[i - p], -x));
    }
    assert(b.last().kind == TokenKind::Eof);
}

/// What is parsed at a token, at whatever precedence, is what its own text
/// parses to: the bytes from its first token to its last.
pub proof fn law_own_text(s: Seq<u8>, p: int, m: int, f: Form, q: int)
    requires
        s.len() <= u32::MAX,
        0 <= m < no_spine(),
        parse_at(lex(s), p, m) == Out::Done(f, q),
    ensures
        ({
            let a = lex(s);
            let x = a[p].start;
            let y = a[q - 1].end;
            &&& 0 <= p < q < a.len()
            &&& 0 <= x <= y <= s.len()
            &&& f.width == y - x
            &&& parse_stream(lex(s.subrange(x, y))) matches Ok(g) && like(f, g) && form_text(f)
                == form_text(g)
        }),
{
    let a = lex(s);
    lemma_lex_toks(s);
    lemma_parse(a, p, m);
    lemma_own_tokens(s, p, q);
    let b = lex(s.subrange(a[p].start, a[q - 1].end));
    lemma_mirror_parse(a, b, p, q, -p, p, m);
    let g = parse_at(b, 0, m)->Done_0;
    assert(parse_at(b, 0, m) == Out::Done(g, q - p));
    assert(b[q - p].kind == TokenKind::Eof);
    if let Out::Done(left, z) = nud_at(b, 0) {
        if 0 < z < b.len() {
            lemma_loop_lower(b, 0, m, stamp(left, lb(b, z)), no_spine(), z);
        }
    }
    assert(parse_at(b, 0, 0) == Out::Done(g, q - p));
    law_like_text(f, g);
}

/// A chain that was put together again around an edit, where parsing at its
/// first token gives it, says what its own text parses to: as many bytes from
/// there on as it is wide.
pub proof fn law_splice_is_own_text(s: Seq<u8>, p: int, m: int, n: Shape, q: int)
    requires
        s.len() <= u32::MAX,
        0 <= m < no_spine(),
        parse_at(lex(s), p, m) == Out::Done(norm(n), q),
    ensures
        ({
            let x = lex(s)[p].start;
            &&& 0 <= x <= x + n.width <= s.len()
            &&& parse_stream(lex(s.subrange(x, x + n.width))) matches Ok(g) && form_text(norm(n))
                == form_text(g)
        }),
{
    law_own_text(s, p, m, norm(n), q);
}

} // verus!
