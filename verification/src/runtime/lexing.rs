//! What tokens depend on: a suffix of a text lexes by itself, and a token
//! depends on its own bytes and the one after it.

use vstd::prelude::*;

use crate::runtime::cursor::{
    digits_end, is_digit, is_space, is_word, is_word_start, lemma_digits_end, lemma_longest,
    lemma_next_token, lemma_token_at, lemma_word_end, longest_symbol, next_token, stands_at,
    token_at, tokens_from, word_end,
};
use crate::runtime::table::Table;
use crate::runtime::token_store::{
    extent, in_order, lemma_extent_concat, lemma_extent_one, relative, TokenSpec,
};

verus! {

/// The tokens from byte `at` on, by gap and width, the first gap from `at`.
pub open spec fn specs_from(t: Table, b: Seq<u8>, at: int) -> Seq<TokenSpec>
    decreases b.len() - at,
{
    let k = next_token(t, b, at);
    let s = TokenSpec {
        kind: k.kind,
        gap: (k.start - at) as u32,
        width: (k.end - k.start) as u32,
    };
    if k.kind is Eof || !(at < k.end <= b.len()) {
        seq![s]
    } else {
        seq![s] + specs_from(t, b, k.end as int)
    }
}

/// From `i` in `a` and from `j` in `b` the text is the same.
pub open spec fn same_rest(a: Seq<u8>, i: int, b: Seq<u8>, j: int) -> bool {
    &&& 0 <= i <= a.len()
    &&& 0 <= j <= b.len()
    &&& a.len() - i == b.len() - j
    &&& forall|k: int| 0 <= k < a.len() - i ==> a[i + k] == #[trigger] b[j + k]
}

pub proof fn lemma_rest_at(a: Seq<u8>, i: int, b: Seq<u8>, j: int, x: int)
    requires
        same_rest(a, i, b, j),
        i <= x <= a.len(),
    ensures
        same_rest(a, x, b, x - i + j),
        x < a.len() ==> a[x] == b[x - i + j],
{
    let y = x - i + j;
    assert forall|k: int| 0 <= k < a.len() - x implies a[x + k] == #[trigger] b[y + k] by {
        assert(b[j + (x - i + k)] == a[i + (x - i + k)]);
    }
    if x < a.len() {
        assert(b[j + (x - i)] == a[i + (x - i)]);
    }
}

pub proof fn lemma_rest_stands(a: Seq<u8>, i: int, b: Seq<u8>, j: int, text: Seq<u8>)
    requires
        same_rest(a, i, b, j),
    ensures
        stands_at(a, i, text) == stands_at(b, j, text),
{
    let n = text.len() as int;
    if i + n <= a.len() {
        let x = a.subrange(i, i + n);
        let y = b.subrange(j, j + n);
        assert forall|k: int| 0 <= k < n implies x[k] == y[k] by {
            assert(b[j + k] == a[i + k]);
        }
        assert(x =~= y);
    }
}

proof fn lemma_rest_longest(t: Table, a: Seq<u8>, i: int, b: Seq<u8>, j: int, n: int)
    requires
        same_rest(a, i, b, j),
    ensures
        longest_symbol(t, a, i, n) == longest_symbol(t, b, j, n),
    decreases n,
{
    if 0 < n <= t.syms@.len() {
        lemma_rest_longest(t, a, i, b, j, n - 1);
        lemma_rest_stands(a, i, b, j, t.syms@[n - 1].text@);
    }
}

proof fn lemma_rest_digits(a: Seq<u8>, i: int, b: Seq<u8>, j: int)
    requires
        same_rest(a, i, b, j),
    ensures
        digits_end(b, j) == digits_end(a, i) - i + j,
    decreases a.len() - i,
{
    if i < a.len() {
        lemma_rest_at(a, i, b, j, i);
        lemma_rest_at(a, i, b, j, i + 1);
        if is_digit(a[i]) {
            lemma_rest_digits(a, i + 1, b, j + 1);
        }
    }
}

pub proof fn lemma_rest_word(a: Seq<u8>, i: int, b: Seq<u8>, j: int)
    requires
        same_rest(a, i, b, j),
    ensures
        word_end(b, j) == word_end(a, i) - i + j,
    decreases a.len() - i,
{
    if i < a.len() {
        lemma_rest_at(a, i, b, j, i);
        lemma_rest_at(a, i, b, j, i + 1);
        if is_word(a[i]) {
            lemma_rest_word(a, i + 1, b, j + 1);
        }
    }
}

/// A token moves with the text from its start on.
pub proof fn lemma_rest_token(t: Table, a: Seq<u8>, i: int, b: Seq<u8>, j: int)
    requires
        same_rest(a, i, b, j),
    ensures
        match token_at(t, a, i) {
            Some((k, e)) => token_at(t, b, j) == Some((k, e - i + j)),
            None => token_at(t, b, j) is None,
        },
{
    if i < a.len() {
        lemma_rest_at(a, i, b, j, i);
        lemma_rest_longest(t, a, i, b, j, t.syms@.len() as int);
        lemma_rest_digits(a, i, b, j);
        lemma_rest_word(a, i, b, j);
    }
}

/// The next token moves with the text.
pub proof fn lemma_rest_next(t: Table, a: Seq<u8>, i: int, b: Seq<u8>, j: int)
    requires
        t.wf(),
        same_rest(a, i, b, j),
        a.len() <= u32::MAX,
        b.len() <= u32::MAX,
    ensures
        next_token(t, b, j).kind == next_token(t, a, i).kind,
        next_token(t, b, j).start == next_token(t, a, i).start - i + j,
        next_token(t, b, j).end == next_token(t, a, i).end - i + j,
    decreases a.len() - i,
{
    if i < a.len() {
        lemma_rest_token(t, a, i, b, j);
        lemma_token_at(t, a, i);
        if token_at(t, a, i) is None {
            lemma_rest_at(a, i, b, j, i + 1);
            lemma_rest_next(t, a, i + 1, b, j + 1);
        }
    }
}

/// A suffix of a text lexes by itself.
pub proof fn lemma_rest_specs(t: Table, a: Seq<u8>, i: int, b: Seq<u8>, j: int)
    requires
        t.wf(),
        same_rest(a, i, b, j),
        a.len() <= u32::MAX,
        b.len() <= u32::MAX,
    ensures
        specs_from(t, a, i) == specs_from(t, b, j),
    decreases a.len() - i,
{
    lemma_rest_next(t, a, i, b, j);
    lemma_next_token(t, a, i);
    let k = next_token(t, a, i);
    if !(k.kind is Eof) {
        lemma_rest_at(a, i, b, j, k.end as int);
        lemma_rest_specs(t, a, k.end as int, b, k.end - i + j);
    }
}

/// Lexing tokens by gap and width, or by position, is the same.
pub proof fn lemma_specs_relative(t: Table, b: Seq<u8>, at: int)
    requires
        t.wf(),
        0 <= at <= b.len() <= u32::MAX,
    ensures
        ({
            let ts = tokens_from(t, b, at);
            let s = specs_from(t, b, at);
            &&& s.len() == ts.len()
            &&& ts.len() > 0
            &&& at <= ts[0].start
            &&& forall|i: int|
                0 <= i < ts.len() ==> (#[trigger] ts[i]).start <= ts[i].end <= b.len() && s[i]
                    == (TokenSpec {
                    kind: ts[i].kind,
                    gap: (ts[i].start - (if i == 0 {
                        at
                    } else {
                        ts[i - 1].end as int
                    })) as u32,
                    width: (ts[i].end - ts[i].start) as u32,
                }) && (i > 0 ==> ts[i - 1].end <= ts[i].start)
        }),
        extent(specs_from(t, b, at)) == b.len() - at,
        specs_from(t, b, at).len() <= b.len() - at + 1,
    decreases b.len() - at,
{
    lemma_next_token(t, b, at);
    let k = next_token(t, b, at);
    let x = TokenSpec { kind: k.kind, gap: (k.start - at) as u32, width: (k.end - k.start) as u32 };
    lemma_extent_one(x);
    if !(k.kind is Eof) {
        let e = k.end as int;
        lemma_specs_relative(t, b, e);
        let ts = tokens_from(t, b, at);
        let us = tokens_from(t, b, e);
        let s = specs_from(t, b, at);
        let r = specs_from(t, b, e);
        assert(ts == seq![k] + us);
        assert(s == seq![x] + r);
        lemma_extent_concat(seq![x], r);
        assert forall|i: int| 0 <= i < ts.len() implies (#[trigger] ts[i]).start <= ts[i].end <= b.len()
            && s[i] == (TokenSpec {
            kind: ts[i].kind,
            gap: (ts[i].start - (if i == 0 {
                at
            } else {
                ts[i - 1].end as int
            })) as u32,
            width: (ts[i].end - ts[i].start) as u32,
        }) && (i > 0 ==> ts[i - 1].end <= ts[i].start) by {
            if i > 0 {
                assert(ts[i] == us[i - 1]);
                assert(s[i] == r[i - 1]);
                if i > 1 {
                    assert(ts[i - 1] == us[i - 2]);
                }
            }
        }
    }
}

/// The tokens of a text by gap and width.
pub proof fn lemma_specs_whole(t: Table, b: Seq<u8>)
    requires
        t.wf(),
        b.len() <= u32::MAX,
    ensures
        relative(tokens_from(t, b, 0)) == specs_from(t, b, 0),
        in_order(tokens_from(t, b, 0)),
        extent(specs_from(t, b, 0)) == b.len(),
        specs_from(t, b, 0).len() <= b.len() + 1,
{
    lemma_specs_relative(t, b, 0);
    let ts = tokens_from(t, b, 0);
    assert(relative(ts) =~= specs_from(t, b, 0)) by {
        assert forall|i: int| 0 <= i < ts.len() implies #[trigger] relative(ts)[i] == specs_from(
            t,
            b,
            0,
        )[i] by {
            assert(ts[i].start <= ts[i].end);
        }
    }
}

/// The specs after the first `n`, from where those end.
pub proof fn lemma_specs_skip(t: Table, b: Seq<u8>, at: int, n: int)
    requires
        t.wf(),
        0 <= at <= b.len() <= u32::MAX,
        0 <= n < specs_from(t, b, at).len(),
    ensures
        at + extent(specs_from(t, b, at).take(n)) <= b.len(),
        specs_from(t, b, at).skip(n) == specs_from(
            t,
            b,
            at + extent(specs_from(t, b, at).take(n)),
        ),
        n > 0 ==> !(specs_from(t, b, at)[n - 1].kind is Eof) && specs_from(t, b, at)[n - 1].width > 0,
    decreases n,
{
    let s = specs_from(t, b, at);
    lemma_next_token(t, b, at);
    let k = next_token(t, b, at);
    if n == 0 {
        assert(s.take(0) =~= Seq::empty());
        assert(s.skip(0) =~= s);
    } else {
        assert(!(k.kind is Eof));
        let e = k.end as int;
        let r = specs_from(t, b, e);
        assert(s =~= seq![s[0]] + r);
        lemma_specs_skip(t, b, e, n - 1);
        assert(s.take(n) =~= seq![s[0]] + r.take(n - 1));
        lemma_extent_concat(seq![s[0]], r.take(n - 1));
        lemma_extent_one(s[0]);
        assert(s.skip(n) =~= r.skip(n - 1));
        if n > 1 {
            assert(s[n - 1] == r[n - 2]);
        }
    }
}

// ---- One byte of context -----------------------------------------------

/// The first `n` bytes of `s` are a token, if the byte after them follows.
pub open spec fn ends_token(t: Table, s: Seq<u8>, n: int) -> bool {
    ||| t.is_symbol(s.take(n))
    ||| t.int && (forall|k: int| 0 <= k < n ==> is_digit(#[trigger] s[k])) && !is_digit(s[n])
    ||| t.ident && is_word_start(s[0]) && (forall|k: int| 0 <= k < n ==> is_word(#[trigger] s[k]))
        && !is_word(s[n])
}

impl Table {
    /// `text` is a symbol.
    pub open spec fn is_symbol(&self, text: Seq<u8>) -> bool {
        exists|k: int| 0 <= k < self.syms@.len() && (#[trigger] self.syms@[k]).text@ == text
    }

    /// One byte past a token decides that it ends there: a symbol that goes
    /// two bytes or more past a token starts with a symbol one byte longer
    /// than it. And long symbols start with a symbol of one byte.
    pub open spec fn one_byte_context(&self) -> bool {
        &&& forall|j: int, n: int|
            0 <= j < self.syms@.len() && 1 <= n <= self.syms@[j].text@.len() - 2
                && #[trigger] ends_token(*self, self.syms@[j].text@, n) ==> self.is_symbol(
                self.syms@[j].text@.take(n + 1),
            )
        &&& forall|j: int|
            0 <= j < self.syms@.len() && (#[trigger] self.syms@[j]).text@.len() >= 4
                ==> self.is_symbol(self.syms@[j].text@.take(1))
    }
}

/// `a` and `b` have the same first `lim` bytes.
pub open spec fn same_head(a: Seq<u8>, b: Seq<u8>, lim: int) -> bool {
    &&& 0 <= lim <= a.len()
    &&& lim <= b.len()
    &&& forall|k: int| 0 <= k < lim ==> a[k] == #[trigger] b[k]
}

pub proof fn lemma_head_stands(a: Seq<u8>, b: Seq<u8>, lim: int, i: int, text: Seq<u8>)
    requires
        same_head(a, b, lim),
        0 <= i,
        i + text.len() <= lim,
    ensures
        stands_at(a, i, text) == stands_at(b, i, text),
{
    let n = text.len() as int;
    assert(a.subrange(i, i + n) =~= b.subrange(i, i + n));
}

proof fn lemma_prefix_stands(b: Seq<u8>, i: int, text: Seq<u8>, n: int)
    requires
        stands_at(b, i, text),
        0 <= n <= text.len(),
    ensures
        stands_at(b, i, text.take(n)),
        forall|k: int| 0 <= k < text.len() ==> #[trigger] text[k] == b[i + k],
{
    let x = b.subrange(i, i + text.len());
    assert forall|k: int| 0 <= k < text.len() implies #[trigger] text[k] == b[i + k] by {
        assert(x[k] == b[i + k]);
    }
    assert(b.subrange(i, i + n) =~= text.take(n));
}

/// Where a token of `a` ends before `lim`, no longer symbol stands in `b`.
proof fn lemma_no_longer(t: Table, a: Seq<u8>, b: Seq<u8>, lim: int, i: int, j: int)
    requires
        t.wf(),
        t.one_byte_context(),
        same_head(a, b, lim),
        0 <= i,
        token_at(t, a, i) matches Some((k, e)) && e < lim,
        0 <= j < t.syms@.len(),
        stands_at(b, i, t.syms@[j].text@),
    ensures
        token_at(t, a, i) matches Some((k, e)) && i + t.syms@[j].text@.len() <= e,
{
    let (kind, e) = token_at(t, a, i)->0;
    let text = t.syms@[j].text@;
    lemma_token_at(t, a, i);
    lemma_longest(t, a, i, t.syms@.len() as int);
    let n = e - i;
    if text.len() > n {
        lemma_prefix_stands(b, i, text, n);
        lemma_prefix_stands(b, i, text, n + 1);
        assert(b[e] == a[e]);
        if text.len() == n + 1 {
            lemma_head_stands(a, b, lim, i, text);
            assert(stands_at(a, i, t.syms@[j].text@));
            lemma_symbol_wins(t, a, i, j);
        } else {
            assert(text[n] == b[i + n]);
            assert(ends_token(t, text, n)) by {
                lemma_ends(t, a, b, lim, i, text);
            }
            assert(t.is_symbol(text.take(n + 1)));
            let m = choose|m: int|
                0 <= m < t.syms@.len() && (#[trigger] t.syms@[m]).text@ == text.take(n + 1);
            lemma_head_stands(a, b, lim, i, text.take(n + 1));
            lemma_symbol_wins(t, a, i, m);
        }
    }
}

/// A symbol that stands at `i` is no longer than the token there.
proof fn lemma_symbol_wins(t: Table, a: Seq<u8>, i: int, j: int)
    requires
        t.wf(),
        0 <= i,
        0 <= j < t.syms@.len(),
        stands_at(a, i, t.syms@[j].text@),
        token_at(t, a, i) is Some,
    ensures
        i + t.syms@[j].text@.len() <= (token_at(t, a, i)->0).1,
{
    lemma_longest(t, a, i, t.syms@.len() as int);
}

/// A text that starts with a token of `a` and its next byte starts with a
/// token.
proof fn lemma_ends(t: Table, a: Seq<u8>, b: Seq<u8>, lim: int, i: int, text: Seq<u8>)
    requires
        t.wf(),
        same_head(a, b, lim),
        0 <= i,
        token_at(t, a, i) matches Some((k, e)) && e < lim && text.len() > e - i,
        stands_at(b, i, text),
    ensures
        ends_token(t, text, (token_at(t, a, i)->0).1 - i),
{
    let (kind, e) = token_at(t, a, i)->0;
    let n = e - i;
    lemma_token_at(t, a, i);
    lemma_longest(t, a, i, t.syms@.len() as int);
    lemma_prefix_stands(b, i, text, n);
    lemma_digits_end(a, i);
    lemma_word_end(a, i);
    assert(text[n] == b[i + n]);
    match longest_symbol(t, a, i, t.syms@.len() as int) {
        Some(m) => {
            lemma_head_stands(a, b, lim, i, text.take(n));
            assert(a.subrange(i, i + n) == t.syms@[m].text@);
            assert(text.take(n) =~= a.subrange(i, i + n)) by {
                assert forall|k: int| 0 <= k < n implies text.take(n)[k] == a.subrange(i, i + n)[k] by {
                    assert(text[k] == b[i + k]);
                }
            }
            assert(t.is_symbol(text.take(n)));
        },
        None => {
            assert forall|k: int| 0 <= k < n implies #[trigger] text[k] == a[i + k] by {
                assert(text[k] == b[i + k]);
            }
            if t.int && is_digit(a[i]) {
                assert forall|k: int| 0 <= k < n implies is_digit(#[trigger] text[k]) by {
                    assert(is_digit(a[i + k]));
                }
            } else {
                assert(text[0] == a[i]);
                assert forall|k: int| 0 <= k < n implies is_word(#[trigger] text[k]) by {
                    assert(is_word(a[i + k]));
                }
            }
        },
    }
}

/// A token depends on its bytes and the next one.
pub proof fn lemma_head_token(t: Table, a: Seq<u8>, b: Seq<u8>, lim: int, i: int)
    requires
        t.wf(),
        t.one_byte_context(),
        same_head(a, b, lim),
        0 <= i,
        token_at(t, a, i) matches Some((k, e)) && e < lim,
    ensures
        token_at(t, b, i) == token_at(t, a, i),
{
    let (kind, e) = token_at(t, a, i)->0;
    let n = t.syms@.len() as int;
    lemma_token_at(t, a, i);
    lemma_longest(t, a, i, n);
    lemma_longest(t, b, i, n);
    assert(b[i] == a[i]);
    match longest_symbol(t, a, i, n) {
        Some(m) => {
            lemma_head_stands(a, b, lim, i, t.syms@[m].text@);
            let q = longest_symbol(t, b, i, n)->0;
            lemma_no_longer(t, a, b, lim, i, q);
            assert(t.syms@[q].text@.len() == t.syms@[m].text@.len());
            assert(t.syms@[q].text@ =~= t.syms@[m].text@) by {
                lemma_head_stands(a, b, lim, i, t.syms@[q].text@);
            }
            assert(q == m);
        },
        None => {
            if longest_symbol(t, b, i, n) is Some {
                let q = longest_symbol(t, b, i, n)->0;
                lemma_no_longer(t, a, b, lim, i, q);
                lemma_head_stands(a, b, lim, i, t.syms@[q].text@);
            }
            lemma_digits_end(a, i);
            lemma_word_end(a, i);
            assert(b[e] == a[e]);
            if t.int && is_digit(a[i]) {
                lemma_digits_known(a, b, lim, i, e);
            } else {
                lemma_word_known(a, b, lim, i, e);
            }
        },
    }
}

proof fn lemma_digits_known(a: Seq<u8>, b: Seq<u8>, lim: int, i: int, e: int)
    requires
        same_head(a, b, lim),
        0 <= i <= e < lim,
        forall|k: int| i <= k < e ==> is_digit(#[trigger] a[k]),
        !is_digit(a[e]),
    ensures
        digits_end(b, i) == e,
    decreases e - i,
{
    assert(b[i] == a[i]);
    if i < e {
        lemma_digits_known(a, b, lim, i + 1, e);
    }
}

proof fn lemma_word_known(a: Seq<u8>, b: Seq<u8>, lim: int, i: int, e: int)
    requires
        same_head(a, b, lim),
        0 <= i <= e < lim,
        forall|k: int| i <= k < e ==> is_word(#[trigger] a[k]),
        !is_word(a[e]),
    ensures
        word_end(b, i) == e,
    decreases e - i,
{
    assert(b[i] == a[i]);
    if i < e {
        lemma_word_known(a, b, lim, i + 1, e);
    }
}

/// That no token starts at a byte depends on three bytes.
pub proof fn lemma_head_none(t: Table, a: Seq<u8>, b: Seq<u8>, lim: int, i: int)
    requires
        t.wf(),
        t.one_byte_context(),
        same_head(a, b, lim),
        0 <= i,
        i + 3 <= lim,
        token_at(t, a, i) is None,
    ensures
        token_at(t, b, i) is None,
{
    let n = t.syms@.len() as int;
    assert(b[i] == a[i]);
    if !is_space(a[i]) {
        lemma_longest(t, a, i, n);
        lemma_longest(t, b, i, n);
        if longest_symbol(t, b, i, n) is Some {
            let q = longest_symbol(t, b, i, n)->0;
            let text = t.syms@[q].text@;
            if text.len() <= 3 {
                lemma_head_stands(a, b, lim, i, text);
            } else {
                assert(t.is_symbol(text.take(1)));
                let m = choose|m: int|
                    0 <= m < t.syms@.len() && (#[trigger] t.syms@[m]).text@ == text.take(1);
                lemma_prefix_stands(b, i, text, 1);
                lemma_head_stands(a, b, lim, i, text.take(1));
                assert(stands_at(a, i, t.syms@[m].text@));
            }
        }
    }
}

/// The next token, where it ends early enough and its start is known.
pub proof fn lemma_head_next(t: Table, a: Seq<u8>, b: Seq<u8>, lim: int, at: int)
    requires
        t.wf(),
        t.one_byte_context(),
        same_head(a, b, lim),
        0 <= at,
        a.len() <= u32::MAX,
        b.len() <= u32::MAX,
        !(next_token(t, a, at).kind is Eof),
        next_token(t, a, at).end < lim,
    ensures
        next_token(t, b, at) == next_token(t, a, at),
    decreases a.len() - at,
{
    lemma_next_token(t, a, at);
    if token_at(t, a, at) is Some {
        lemma_head_token(t, a, b, lim, at);
    } else {
        lemma_head_none(t, a, b, lim, at);
        lemma_head_next(t, a, b, lim, at + 1);
    }
}

/// Tokens well before `lim` are the same in both texts.
pub proof fn lemma_head_specs(t: Table, a: Seq<u8>, b: Seq<u8>, lim: int, at: int, n: int)
    requires
        t.wf(),
        t.one_byte_context(),
        same_head(a, b, lim),
        0 <= at <= a.len(),
        at <= b.len(),
        a.len() <= u32::MAX,
        b.len() <= u32::MAX,
        0 <= n < specs_from(t, a, at).len(),
        n > 0 ==> at + extent(specs_from(t, a, at).take(n)) < lim,
    ensures
        specs_from(t, b, at) == specs_from(t, a, at).take(n) + specs_from(
            t,
            b,
            at + extent(specs_from(t, a, at).take(n)),
        ),
        at + extent(specs_from(t, a, at).take(n)) <= b.len(),
    decreases n,
{
    let s = specs_from(t, a, at);
    if n == 0 {
        assert(s.take(0) =~= Seq::empty());
        assert(s.take(0) + specs_from(t, b, at) =~= specs_from(t, b, at));
    } else {
        lemma_next_token(t, a, at);
        let k = next_token(t, a, at);
        assert(!(k.kind is Eof));
        let e = k.end as int;
        let r = specs_from(t, a, e);
        assert(s =~= seq![s[0]] + r);
        assert(s.take(n) =~= seq![s[0]] + r.take(n - 1));
        lemma_extent_concat(seq![s[0]], r.take(n - 1));
        lemma_extent_one(s[0]);
        lemma_head_next(t, a, b, lim, at);
        if n == 1 {
            assert(r.take(0) =~= Seq::empty());
        }
        lemma_head_specs(t, a, b, lim, e, n - 1);
        assert(specs_from(t, b, at) =~= s.take(n) + specs_from(t, b, at + extent(s.take(n))));
    }
}

} // verus!
