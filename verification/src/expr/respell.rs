//! Tokens written one after the other, with spaces where they are needed, lex
//! back to themselves.

use vstd::prelude::*;
use vstd::utf8::*;

use crate::ascii::{EQUALS, SPACE};
use crate::expr::grammar::parse_stream;
use crate::expr::lexer::{
    digits_end, ident_end, is_digit, is_ident_byte, is_ident_start, lemma_digits_end,
    lemma_ident_end, lemma_lex_from, lemma_next_tok, lemma_tok_at, lex, lex_from, next_tok,
    pair_kind, short_kind, single_kind, tok_at, TokenKind,
};
use crate::expr::mirror::{law_stream_by_words, like, same_word};
use crate::expr::own_text::lemma_cut_tok;
use crate::expr::pratt_core::lemma_lex_toks;
use crate::expr::repair::{joined, rendered, slot_text, start, texts};

verus! {

/// A token to be written, and whether a space comes before it.
pub ghost struct Piece {
    pub kind: TokenKind,
    pub word: Seq<u8>,
    pub gap: bool,
}

/// The space before a piece.
pub open spec fn lead(p: Piece) -> Seq<u8> {
    if p.gap {
        seq![SPACE]
    } else {
        Seq::empty()
    }
}

/// The first `k` pieces, written one after the other.
pub open spec fn glued(ps: Seq<Piece>, k: int) -> Seq<u8>
    decreases k,
{
    if 0 < k <= ps.len() {
        glued(ps, k - 1) + lead(ps[k - 1]) + ps[k - 1].word
    } else {
        Seq::empty()
    }
}

/// The word of a piece is one token of its kind.
pub open spec fn whole(p: Piece) -> bool {
    p.word.len() > 0 && tok_at(p.word, 0) == Some((p.kind, p.word.len() as int))
}

/// A token `w` does not go on with byte `c`.
pub open spec fn breaks(w: Seq<u8>, c: u8) -> bool {
    &&& is_digit(w[0]) ==> !is_digit(c)
    &&& is_ident_start(w[0]) ==> !is_ident_byte(c)
    &&& w.len() == 1 && short_kind(w[0]) is Some ==> c != EQUALS
}

/// Pieces are tokens, and no two run together.
pub open spec fn apart(ps: Seq<Piece>) -> bool {
    &&& forall|i: int| 0 <= i < ps.len() ==> whole(#[trigger] ps[i])
    &&& forall|i: int| 0 < i < ps.len() ==> #[trigger] parted(ps, i)
}

/// Piece `i` does not run together with the one before it.
pub open spec fn parted(ps: Seq<Piece>, i: int) -> bool {
    ps[i].gap || breaks(ps[i - 1].word, ps[i].word[0])
}

/// A token that stands at byte `i` and does not go on is lexed there.
proof fn lemma_word_at(s: Seq<u8>, i: int, w: Seq<u8>, k: TokenKind)
    requires
        0 <= i,
        i + w.len() <= s.len(),
        w.len() > 0,
        s.subrange(i, i + w.len()) == w,
        tok_at(w, 0) == Some((k, w.len() as int)),
        i + w.len() < s.len() ==> breaks(w, s[i + w.len()]),
    ensures
        tok_at(s, i) == Some((k, i + w.len())),
{
    let n = w.len() as int;
    assert forall|j: int| 0 <= j < n implies #[trigger] w[j] == s[i + j] by {
        assert(s.subrange(i, i + n)[j] == s[i + j]);
    }
    let b = w[0];
    assert(s[i + 0] == b);
    if n > 1 {
        assert(w[1] == s[i + 1]);
    }
    if single_kind(b) is None && !(n > 1 && pair_kind(b, w[1]) is Some) && short_kind(b) is None {
        if is_digit(b) {
            lemma_digits_end(w, 1);
            lemma_digits_end(s, i + 1);
            let e = digits_end(s, i + 1);
            if e < i + n {
                assert(is_digit(w[e - i]));
            }
            if e > i + n {
                assert(is_digit(s[i + n]));
            }
        } else {
            lemma_ident_end(w, 1);
            lemma_ident_end(s, i + 1);
            let e = ident_end(s, i + 1);
            if e < i + n {
                assert(is_ident_byte(w[e - i]));
            }
            if e > i + n {
                assert(is_ident_byte(s[i + n]));
            }
        }
    }
}

/// The first pieces are a prefix of all of them.
proof fn lemma_glued_prefix(ps: Seq<Piece>, k: int, n: int)
    requires
        0 <= k <= n <= ps.len(),
    ensures
        glued(ps, k).len() <= glued(ps, n).len(),
        glued(ps, n).take(glued(ps, k).len() as int) == glued(ps, k),
    decreases n - k,
{
    if k < n {
        lemma_glued_prefix(ps, k, n - 1);
        let (x, y, z) = (glued(ps, k), glued(ps, n - 1), glued(ps, n));
        assert(z.take(x.len() as int) =~= y.take(x.len() as int));
    } else {
        assert(glued(ps, n).take(glued(ps, k).len() as int) =~= glued(ps, k));
    }
}

/// Where piece `k` stands.
proof fn lemma_piece_at(ps: Seq<Piece>, k: int)
    requires
        0 <= k < ps.len(),
    ensures
        ({
            let s = glued(ps, ps.len() as int);
            let p = ps[k];
            let i = glued(ps, k).len() as int;
            let j = i + lead(p).len();
            &&& j + p.word.len() == glued(ps, k + 1).len() <= s.len()
            &&& s.subrange(j, j + p.word.len()) == p.word
            &&& p.gap ==> s[i] == SPACE
        }),
{
    let n = ps.len() as int;
    let s = glued(ps, n);
    let p = ps[k];
    let x = glued(ps, k + 1);
    lemma_glued_prefix(ps, k + 1, n);
    let i = glued(ps, k).len() as int;
    let j = i + lead(p).len();
    assert(s.subrange(j, j + p.word.len()) =~= p.word) by {
        assert forall|h: int| 0 <= h < p.word.len() implies s[j + h] == p.word[h] by {
            assert(s.take(x.len() as int)[j + h] == x[j + h]);
        }
    }
    if p.gap {
        assert(s.take(x.len() as int)[i] == x[i]);
    }
}

/// The token after the first `k` pieces is piece `k`.
proof fn lemma_next_piece(ps: Seq<Piece>, k: int)
    requires
        apart(ps),
        0 <= k < ps.len(),
    ensures
        ({
            let s = glued(ps, ps.len() as int);
            let t = next_tok(s, glued(ps, k).len() as int);
            &&& t.kind == ps[k].kind
            &&& t.kind != TokenKind::Eof
            &&& t.end == glued(ps, k + 1).len()
            &&& glued(ps, k).len() < t.end <= s.len()
            &&& t.text == decode_utf8(ps[k].word)
        }),
{
    let n = ps.len() as int;
    let s = glued(ps, n);
    let i = glued(ps, k).len() as int;
    let p = ps[k];
    let w = p.word;
    let j = i + lead(p).len();
    let e = j + w.len();
    lemma_piece_at(ps, k);
    assert(whole(p));
    if k + 1 < n {
        lemma_piece_at(ps, k + 1);
        let q = ps[k + 1];
        assert(whole(q));
        if q.gap {
            assert(s[e] == SPACE);
        } else {
            assert(s.subrange(e, e + q.word.len())[0] == s[e]);
            assert(parted(ps, k + 1));
            assert(breaks(w, q.word[0]));
        }
    } else {
        assert(e == s.len());
    }
    lemma_word_at(s, j, w, p.kind);
    lemma_tok_at(s, j);
    if p.gap {
        assert(tok_at(s, i) is None);
        assert(next_tok(s, i) == next_tok(s, j));
    }
}

/// From piece `k` on, the tokens are the pieces.
proof fn lemma_lex_pieces(ps: Seq<Piece>, k: int)
    requires
        apart(ps),
        0 <= k <= ps.len(),
    ensures
        ({
            let s = glued(ps, ps.len() as int);
            let b = lex_from(s, glued(ps, k).len() as int);
            &&& b.len() == ps.len() - k + 1
            &&& forall|j: int|
                0 <= j < ps.len() - k ==> (#[trigger] b[j]).kind == ps[k + j].kind && b[j].text
                    == decode_utf8(ps[k + j].word)
        }),
    decreases ps.len() - k,
{
    let n = ps.len() as int;
    let s = glued(ps, n);
    let i = glued(ps, k).len() as int;
    let b = lex_from(s, i);
    if k < n {
        lemma_next_piece(ps, k);
        lemma_lex_pieces(ps, k + 1);
        let t = next_tok(s, i);
        let rest = lex_from(s, t.end);
        assert(b == seq![t] + rest);
        assert forall|h: int| 0 <= h < n - k implies (#[trigger] b[h]).kind == ps[k + h].kind
            && b[h].text == decode_utf8(ps[k + h].word) by {
            if h > 0 {
                assert(b[h] == rest[h - 1]);
                assert(ps[k + 1 + (h - 1)] == ps[k + h]);
            }
        }
    } else {
        lemma_next_tok(s, i);
    }
}

/// Pieces that do not run together lex back to themselves.
pub proof fn law_pieces_lex(ps: Seq<Piece>)
    requires
        apart(ps),
    ensures
        ({
            let b = lex(glued(ps, ps.len() as int));
            &&& b.len() == ps.len() + 1
            &&& forall|j: int|
                0 <= j < ps.len() ==> (#[trigger] b[j]).kind == ps[j].kind && b[j].text
                    == decode_utf8(ps[j].word)
        }),
{
    lemma_lex_pieces(ps, 0);
    let b = lex(glued(ps, ps.len() as int));
    assert forall|j: int| 0 <= j < ps.len() implies (#[trigger] b[j]).kind == ps[j].kind && b[j].text
        == decode_utf8(ps[j].word) by {
        assert(ps[0 + j] == ps[j]);
    }
}

/// The tokens of a text, a space between each two.
pub open spec fn spaced(s: Seq<u8>) -> Seq<Piece> {
    Seq::new(
        (lex(s).len() - 1) as nat,
        |i: int|
            Piece {
                kind: lex(s)[i].kind,
                word: s.subrange(lex(s)[i].start, lex(s)[i].end),
                gap: i > 0,
            },
    )
}

proof fn lemma_spaced(s: Seq<u8>, k: int)
    requires
        s.len() <= u32::MAX,
        0 <= k < lex(s).len(),
    ensures
        joined(texts(s, start(lex(s).len() - 1)), k) == glued(spaced(s), k),
        glued(spaced(s), k).len() <= if k == 0 {
            0
        } else {
            lex(s)[k - 1].end + k
        },
    decreases k,
{
    lemma_lex_from(s, 0);
    let n = lex(s).len() - 1;
    let ts = texts(s, start(n));
    if k > 0 {
        lemma_spaced(s, k - 1);
        let i = k - 1;
        let t = lex(s)[i];
        assert(0 <= t.start < t.end <= s.len());
        assert(ts[i] == slot_text(s, start(n)[i]));
        assert(ts[i] == spaced(s)[i].word);
        if k > 1 {
            assert(lex(s)[k - 2].end <= t.start);
        } else {
            assert(glued(spaced(s), 1) =~= spaced(s)[0].word);
        }
    }
}

/// The tokens of a text, written with a space between each two, are apart.
proof fn lemma_spaced_apart(s: Seq<u8>)
    ensures
        apart(spaced(s)),
{
    let ps = spaced(s);
    lemma_lex_from(s, 0);
    assert forall|i: int| 0 <= i < ps.len() implies whole(#[trigger] ps[i]) by {
        let t = lex(s)[i];
        assert(0 <= t.start < t.end <= s.len());
        lemma_cut_tok(s, t.start, t.end, t.start);
    }
}

/// The text of token `i`.
proof fn lemma_spaced_text(s: Seq<u8>, i: int)
    requires
        0 <= i < lex(s).len() - 1,
    ensures
        lex(s)[i].text == decode_utf8(spaced(s)[i].word),
        lex(s)[i].end <= s.len(),
        lex(s).len() <= s.len() + 1,
{
    lemma_lex_from(s, 0);
}

/// They lex back to the tokens.
proof fn lemma_spaced_words(s: Seq<u8>)
    requires
        s.len() <= u32::MAX,
    ensures
        ({
            let r = rendered(s, start(lex(s).len() - 1));
            &&& r.len() <= 2 * s.len() + 1
            &&& lex(r).len() == lex(s).len()
            &&& forall|i: int|
                0 <= i < lex(s).len() - 1 ==> same_word(#[trigger] lex(s)[i], lex(r)[i])
        }),
{
    let a = lex(s);
    let n = a.len() - 1;
    let ps = spaced(s);
    assert(n >= 0) by {
        lemma_lex_from(s, 0);
    }
    lemma_spaced_apart(s);
    lemma_spaced(s, n);
    let r = rendered(s, start(n));
    assert(r == glued(ps, n));
    law_pieces_lex(ps);
    if n > 0 {
        lemma_spaced_text(s, n - 1);
    }
    assert forall|i: int| 0 <= i < n implies same_word(#[trigger] a[i], lex(r)[i]) by {
        lemma_spaced_text(s, i);
        assert(lex(r)[i].kind == ps[i].kind);
    }
}

/// A text whose tokens are written anew, a space between each two, has the same
/// tokens: it parses exactly where the text does, and to the same.
pub proof fn law_spaced_parses_alike(s: Seq<u8>)
    requires
        2 * s.len() + 1 <= u32::MAX,
    ensures
        ({
            let r = rendered(s, start(lex(s).len() - 1));
            &&& parse_stream(lex(s)) is Ok <==> parse_stream(lex(r)) is Ok
            &&& parse_stream(lex(s)) is Ok ==> like(
                parse_stream(lex(s))->Ok_0,
                parse_stream(lex(r))->Ok_0,
            )
        }),
{
    let r = rendered(s, start(lex(s).len() - 1));
    lemma_spaced_words(s);
    lemma_lex_toks(s);
    lemma_lex_toks(r);
    law_stream_by_words(lex(s), lex(r));
}

} // verus!
