//! Lexical locality: a stretch of bytes that an edit leaves alone, together
//! with the byte after it, keeps its tokens.

use vstd::prelude::*;

use crate::expr::lexer::{
    digits_end, ident_end, is_digit, is_ident_byte, lemma_digits_end, lemma_ident_end,
    lemma_lex_from, lemma_lex_suffix, lemma_next_tok, lemma_tok_at, lex, lex_from, mk_tok, next_tok,
    tok_at,
};
use crate::expr::locality::same_tok;

verus! {

/// Bytes `lo..hi` of `s` stand `e` bytes further on in `t`, followed by the
/// same byte or by the end of the source.
pub open spec fn same_bytes(s: Seq<u8>, t: Seq<u8>, lo: int, hi: int, e: int) -> bool {
    &&& 0 <= lo <= hi <= s.len()
    &&& 0 <= lo + e
    &&& hi + e <= t.len()
    &&& forall|k: int| lo <= k < hi ==> #[trigger] s[k] == t[k + e]
    &&& hi == s.len() <==> hi + e == t.len()
    &&& hi < s.len() ==> s[hi] == t[hi + e]
}

proof fn lemma_digits_local(s: Seq<u8>, t: Seq<u8>, lo: int, hi: int, e: int, i: int)
    requires
        same_bytes(s, t, lo, hi, e),
        lo <= i <= hi,
        digits_end(s, i) <= hi,
    ensures
        digits_end(t, i + e) == digits_end(s, i) + e,
    decreases hi - i,
{
    if i < hi {
        assert(s[i] == t[i + e]);
        if is_digit(s[i]) {
            lemma_digits_local(s, t, lo, hi, e, i + 1);
        }
    } else if i < s.len() {
        lemma_digits_end(s, i + 1);
    }
}

proof fn lemma_ident_local(s: Seq<u8>, t: Seq<u8>, lo: int, hi: int, e: int, i: int)
    requires
        same_bytes(s, t, lo, hi, e),
        lo <= i <= hi,
        ident_end(s, i) <= hi,
    ensures
        ident_end(t, i + e) == ident_end(s, i) + e,
    decreases hi - i,
{
    if i < hi {
        assert(s[i] == t[i + e]);
        if is_ident_byte(s[i]) {
            lemma_ident_local(s, t, lo, hi, e, i + 1);
        }
    } else if i < s.len() {
        lemma_ident_end(s, i + 1);
    }
}

proof fn lemma_tok_local(s: Seq<u8>, t: Seq<u8>, lo: int, hi: int, e: int, i: int)
    requires
        same_bytes(s, t, lo, hi, e),
        lo <= i < hi,
        tok_at(s, i) matches Some((k, end)) ==> end <= hi,
    ensures
        tok_at(t, i + e) == (match tok_at(s, i) {
            Some((k, end)) => Some((k, end + e)),
            None => None,
        }),
{
    assert(s[i] == t[i + e]);
    if i + 1 < hi {
        assert(s[i + 1] == t[i + 1 + e]);
    }
    if is_digit(s[i]) {
        lemma_digits_end(s, i + 1);
        lemma_digits_local(s, t, lo, hi, e, i + 1);
    } else if is_ident_byte(s[i]) {
        lemma_ident_end(s, i + 1);
        lemma_ident_local(s, t, lo, hi, e, i + 1);
    }
}

/// The `n` tokens of a stretch that no token straddles.
pub proof fn lemma_stream_local(s: Seq<u8>, t: Seq<u8>, lo: int, hi: int, e: int, i: int, n: int)
    requires
        same_bytes(s, t, lo, hi, e),
        lo <= i <= hi,
        0 <= n < lex_from(s, i).len(),
        forall|k: int| 0 <= k < n ==> (#[trigger] lex_from(s, i)[k]).end <= hi,
        lex_from(s, i)[n].start >= hi,
    ensures
        n < lex_from(t, i + e).len(),
        forall|k: int|
            0 <= k < n ==> same_tok(#[trigger] lex_from(s, i)[k], lex_from(t, i + e)[k], e),
        lex_from(t, i + e)[n].start >= hi + e,
    decreases hi - i,
{
    let a = lex_from(s, i);
    let b = lex_from(t, i + e);
    lemma_lex_from(s, i);
    lemma_lex_from(t, i + e);
    lemma_next_tok(s, i);
    lemma_next_tok(t, i + e);
    if i == hi {
        assert(n == 0) by {
            if n > 0 {
                assert(a[0].start < a[0].end);
            }
        }
    } else {
        lemma_tok_at(s, i);
        match tok_at(s, i) {
            None => {
                lemma_tok_local(s, t, lo, hi, e, i);
                lemma_next_tok(s, i + 1);
                lemma_next_tok(t, i + 1 + e);
                assert(next_tok(s, i) == next_tok(s, i + 1));
                assert(next_tok(t, i + e) == next_tok(t, i + 1 + e));
                assert(a =~= lex_from(s, i + 1));
                assert(b =~= lex_from(t, i + 1 + e));
                lemma_stream_local(s, t, lo, hi, e, i + 1, n);
            },
            Some((kind, end)) => {
                assert(a[0] == mk_tok(s, kind, i, end));
                assert(n > 0);
                lemma_tok_local(s, t, lo, hi, e, i);
                let rest = lex_from(s, end);
                let rest2 = lex_from(t, end + e);
                assert(a == seq![a[0]] + rest);
                assert(b[0] == mk_tok(t, kind, i + e, end + e));
                assert(s.subrange(i, end) =~= t.subrange(i + e, end + e));
                assert(b == seq![b[0]] + rest2);
                assert forall|k: int| 0 <= k < n - 1 implies (#[trigger] rest[k]).end <= hi by {
                    assert(a[k + 1] == rest[k]);
                }
                assert(a[n] == rest[n - 1]);
                lemma_stream_local(s, t, lo, hi, e, end, n - 1);
                assert forall|k: int| 0 <= k < n implies same_tok(#[trigger] a[k], b[k], e) by {
                    if k > 0 {
                        assert(a[k] == rest[k - 1]);
                        assert(b[k] == rest2[k - 1]);
                    }
                }
            },
        }
    }
}

/// Tokens `p..q` of `lex(s)`, from the token that starts at byte
/// `lex(s)[p].start`, recur in `lex(t)` from token `p2` on when the bytes up to
/// `hi` recur there.
pub proof fn lemma_tokens_upto(s: Seq<u8>, t: Seq<u8>, p: int, q: int, p2: int, e: int, hi: int)
    requires
        0 <= p < q < lex(s).len(),
        0 <= p2 < lex(t).len(),
        lex(t)[p2].start == lex(s)[p].start + e,
        lex(s)[q - 1].end <= hi <= lex(s)[q].start,
        same_bytes(s, t, lex(s)[p].start, hi, e),
    ensures
        q + (p2 - p) < lex(t).len(),
        forall|i: int|
            p <= i < q ==> same_tok(#[trigger] lex(s)[i], lex(t)[i + (p2 - p)], e),
        lex(t)[q + (p2 - p)].start >= hi + e,
{
    let a = lex(s);
    let b = lex(t);
    let i = a[p].start;
    let x = lex_from(s, i);
    let y = lex_from(t, i + e);
    lemma_lex_order(s, p, q);
    lemma_lex_suffix(s, 0, p);
    lemma_lex_suffix(t, 0, p2);
    assert(x == a.skip(p));
    assert(y == b.skip(p2));
    assert forall|k: int| 0 <= k < q - p implies (#[trigger] x[k]).end <= hi by {
        assert(x[k] == a[p + k]);
        lemma_lex_order(s, p + k, q);
    }
    assert(x[q - p] == a[q]);
    lemma_stream_local(s, t, i, hi, e, i, q - p);
    assert(y[q - p] == b[p2 + (q - p)]);
    assert forall|k: int| p <= k < q implies same_tok(#[trigger] a[k], b[k + (p2 - p)], e) by {
        assert(x[k - p] == a[k]);
        assert(y[k - p] == b[k - p + p2]);
    }
}

/// The same for the bytes of the tokens alone.
pub proof fn lemma_tokens_recur(s: Seq<u8>, t: Seq<u8>, p: int, q: int, p2: int, e: int)
    requires
        0 <= p < q < lex(s).len(),
        0 <= p2 < lex(t).len(),
        lex(t)[p2].start == lex(s)[p].start + e,
        same_bytes(s, t, lex(s)[p].start, lex(s)[q - 1].end, e),
    ensures
        q + (p2 - p) < lex(t).len(),
        forall|i: int|
            p <= i < q ==> same_tok(#[trigger] lex(s)[i], lex(t)[i + (p2 - p)], e),
        lex(t)[q + (p2 - p)].start >= lex(s)[q - 1].end + e,
{
    lemma_lex_order(s, p, q);
    lemma_tokens_upto(s, t, p, q, p2, e, lex(s)[q - 1].end);
}

proof fn lemma_lex_order(s: Seq<u8>, p: int, q: int)
    requires
        0 <= p < q < lex(s).len(),
    ensures
        0 <= lex(s)[p].start < lex(s)[p].end <= lex(s)[q - 1].end <= lex(s)[q].start,
{
    lemma_lex_from(s, 0);
    let a = lex(s);
    assert(a[p].start < a[p].end);
    assert(a[q - 1].start < a[q - 1].end);
    assert(a[q - 1].end <= a[q].start);
    if p < q - 1 {
        assert(a[p].end <= a[q - 1].start);
    }
}

/// The tokens from a point on recur when all bytes from there on recur.
proof fn lemma_tail_local(s: Seq<u8>, t: Seq<u8>, lo: int, e: int, i: int)
    requires
        same_bytes(s, t, lo, s.len() as int, e),
        lo <= i <= s.len(),
    ensures
        lex_from(t, i + e).len() == lex_from(s, i).len(),
        forall|k: int|
            0 <= k < lex_from(s, i).len() ==> same_tok(
                #[trigger] lex_from(s, i)[k],
                lex_from(t, i + e)[k],
                e,
            ),
    decreases s.len() - i,
{
    let n = s.len() as int;
    lemma_next_tok(s, i);
    lemma_next_tok(t, i + e);
    if i < n {
        lemma_tok_at(s, i);
        lemma_tok_local(s, t, lo, n, e, i);
        match tok_at(s, i) {
            None => {
                assert(next_tok(s, i) == next_tok(s, i + 1));
                assert(next_tok(t, i + e) == next_tok(t, i + 1 + e));
                lemma_next_tok(s, i + 1);
                lemma_next_tok(t, i + 1 + e);
                assert(lex_from(s, i) =~= lex_from(s, i + 1));
                assert(lex_from(t, i + e) =~= lex_from(t, i + 1 + e));
                lemma_tail_local(s, t, lo, e, i + 1);
            },
            Some((kind, end)) => {
                assert(s.subrange(i, end) =~= t.subrange(i + e, end + e));
                let x = mk_tok(s, kind, i, end);
                let y = mk_tok(t, kind, i + e, end + e);
                assert(lex_from(s, i) == seq![x] + lex_from(s, end));
                assert(lex_from(t, i + e) == seq![y] + lex_from(t, end + e));
                lemma_tail_local(s, t, lo, e, end);
                assert forall|k: int| 0 <= k < lex_from(s, i).len() implies same_tok(
                    #[trigger] lex_from(s, i)[k],
                    lex_from(t, i + e)[k],
                    e,
                ) by {
                    if k > 0 {
                        assert(lex_from(s, i)[k] == lex_from(s, end)[k - 1]);
                        assert(lex_from(t, i + e)[k] == lex_from(t, end + e)[k - 1]);
                    }
                }
            },
        }
    } else {
        assert(s.subrange(n, n) =~= t.subrange(n + e, n + e));
        assert(lex_from(s, i) =~= seq![next_tok(s, i)]);
        assert(lex_from(t, i + e) =~= seq![next_tok(t, i + e)]);
    }
}

/// Tokens `x..` of `lex(s)` recur in `lex(t)` from token `y` on: the bytes from
/// there on recur, and the tokens start together or the ones before end
/// together.
pub proof fn lemma_tail_recurs(s: Seq<u8>, t: Seq<u8>, x: int, y: int, lo: int, e: int)
    requires
        same_bytes(s, t, lo, s.len() as int, e),
        0 <= x < lex(s).len(),
        0 <= y < lex(t).len(),
        lo <= s.len(),
        ({
            ||| lex(s)[x].start == lo && lex(t)[y].start == lo + e
            ||| x > 0 && y > 0 && lex(s)[x - 1].end == lo && lex(t)[y - 1].end == lo + e
        }),
    ensures
        lex(t).len() - y == lex(s).len() - x,
        forall|i: int|
            x <= i < lex(s).len() ==> same_tok(#[trigger] lex(s)[i], lex(t)[i + (y - x)], e),
{
    let a = lex(s);
    let b = lex(t);
    lemma_tail_local(s, t, lo, e, lo);
    if a[x].start == lo && b[y].start == lo + e {
        lemma_lex_suffix(s, 0, x);
        lemma_lex_suffix(t, 0, y);
    } else {
        lemma_lex_suffix(s, 0, x - 1);
        lemma_lex_suffix(t, 0, y - 1);
    }
    assert(lex_from(s, lo) == a.skip(x));
    assert(lex_from(t, lo + e) == b.skip(y));
    assert forall|i: int| x <= i < a.len() implies same_tok(#[trigger] a[i], b[i + (y - x)], e) by {
        assert(a.skip(x)[i - x] == a[i]);
        assert(b.skip(y)[i - x] == b[i + (y - x)]);
    }
}

} // verus!
