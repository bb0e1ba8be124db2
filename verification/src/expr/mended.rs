//! What repairs make of a source: the tokens of the text that parses are those of the
//! source with the repairs made.

use vstd::multiset::Multiset;
use vstd::prelude::*;
use vstd::utf8::*;

use crate::expr::exchange::{lemma_shape, slots_ok};
use crate::expr::lexer::{
    digits_end, ident_end, lemma_digits_end, lemma_ident_end, lemma_lex_from, lemma_next_tok, lex,
    lex_from, next_tok, tok_at, TokenKind,
};
use crate::expr::meaning::number;
use crate::expr::own_text::lemma_cut_tok;
use crate::expr::parser::parsed;
use crate::expr::preference::{lemma_in_place, place, touched};
use crate::expr::recovery::{
    global_result, is_fallback, mends, none_before, result_of, search_result, token_kinds,
    unit_costs, RepairResult,
};
use crate::expr::repair::{
    canon_bytes, in_alphabet, joined, legal, rendered, repair_of, repairs_of, run, slot_text,
    texts, Move, Repair, RepairCosts, Slot,
};
use crate::expr::respell::{apart, glued, law_pieces_lex, whole, Piece};

verus! {

/// A token put in is one of its kind: its text lexes to a single token of that kind,
/// one byte long. A number put in is 0, a name `x`.
pub proof fn law_put_in_lexes(k: TokenKind)
    requires
        in_alphabet(k),
    ensures
        ({
            let a = lex(canon_bytes(k));
            &&& a.len() == 2
            &&& a[0].kind == k
            &&& a[0].start == 0
            &&& a[0].end == canon_bytes(k).len()
            &&& a[1].kind == TokenKind::Eof
        }),
        canon_bytes(k).len() == 1,
        k == TokenKind::Int ==> number(canon_bytes(k)) == Some(0i64),
        k == TokenKind::Ident ==> canon_bytes(k)[0] == 'x' as u8,
{
    let s = canon_bytes(k);
    lemma_put_in(k);
    lemma_next_tok(s, 0);
    lemma_next_tok(s, 1);
    assert(next_tok(s, 0).kind == k);
    assert(lex_from(s, 1) =~= seq![next_tok(s, 1)]);
    assert(lex(s) =~= seq![next_tok(s, 0)] + lex_from(s, 1));
    if k == TokenKind::Int {
        reveal_with_fuel(crate::expr::meaning::digits_value, 3);
    }
}

proof fn lemma_put_in(k: TokenKind)
    requires
        in_alphabet(k),
    ensures
        canon_bytes(k).len() == 1,
        tok_at(canon_bytes(k), 0) == Some((k, 1int)),
{
    let s = canon_bytes(k);
    lemma_digits_end(s, 1);
    lemma_ident_end(s, 1);
    assert(digits_end(s, 1) == 1);
    assert(ident_end(s, 1) == 1);
}

/// What repairs can put in: operands, an operator, and what a bracket or a choice may
/// lack. Each gap that a parse error names can be filled.
pub proof fn law_alphabet(k: TokenKind)
    ensures
        in_alphabet(TokenKind::Int) && in_alphabet(TokenKind::Ident),
        in_alphabet(TokenKind::RParen) && in_alphabet(TokenKind::RBracket) && in_alphabet(
            TokenKind::Colon,
        ),
        in_alphabet(TokenKind::Plus),
        in_alphabet(k) && crate::expr::op::lbp_of(k) > 0 ==> k == TokenKind::Plus,
        in_alphabet(k) && crate::expr::op::lbp_of(k) == 0 && !crate::expr::op::prefix_kind(k) ==> k
            == TokenKind::RParen || k == TokenKind::RBracket || k == TokenKind::Colon,
        in_alphabet(k) && crate::expr::op::prefix_kind(k) ==> k == TokenKind::Int || k
            == TokenKind::Ident,
{
}

// ---- The stream of a sequence of repairs -------------------------------

/// The kind of the token in a slot of a stream over source `s`.
pub open spec fn slot_kind(s: Seq<u8>, x: Slot) -> TokenKind {
    match x {
        Slot::Keep(i) => lex(s)[i as int].kind,
        Slot::Synth(k) => k,
    }
}

/// The kinds of a stream.
pub open spec fn slot_kinds(s: Seq<u8>, xs: Seq<Slot>) -> Seq<TokenKind> {
    Seq::new(xs.len(), |i: int| slot_kind(s, xs[i]))
}

spec fn slot_pieces(s: Seq<u8>, xs: Seq<Slot>) -> Seq<Piece> {
    Seq::new(
        xs.len(),
        |i: int| Piece { kind: slot_kind(s, xs[i]), word: slot_text(s, xs[i]), gap: i > 0 },
    )
}

proof fn lemma_slots_glued(s: Seq<u8>, xs: Seq<Slot>, k: int)
    requires
        0 <= k <= xs.len(),
    ensures
        joined(texts(s, xs), k) == glued(slot_pieces(s, xs), k),
    decreases k,
{
    let (ts, ps) = (texts(s, xs), slot_pieces(s, xs));
    if k > 0 {
        lemma_slots_glued(s, xs, k - 1);
        assert(ts[k - 1] == ps[k - 1].word);
        if k == 1 {
            assert(glued(ps, 1) =~= ps[0].word);
        }
    }
}

/// A stream written out, a space between each two tokens, lexes to the tokens it is
/// made of: those kept, with their texts, and those put in.
pub proof fn law_stream_lexes(s: Seq<u8>, xs: Seq<Slot>)
    requires
        slots_ok(lex(s).len() - 1, xs),
    ensures
        token_kinds(rendered(s, xs)) == slot_kinds(s, xs),
        lex(rendered(s, xs)).len() == xs.len() + 1,
        forall|i: int|
            0 <= i < xs.len() ==> (#[trigger] xs[i] matches Slot::Keep(o) ==> lex(
                rendered(s, xs),
            )[i].text == lex(s)[o as int].text),
{
    let ps = slot_pieces(s, xs);
    let n = xs.len() as int;
    lemma_lex_from(s, 0);
    lemma_slots_glued(s, xs, n);
    assert forall|i: int| 0 <= i < n implies whole(#[trigger] ps[i]) by {
        match xs[i] {
            Slot::Keep(o) => {
                let t = lex(s)[o as int];
                assert(0 <= t.start < t.end <= s.len());
                lemma_cut_tok(s, t.start, t.end, t.start);
            },
            Slot::Synth(k) => {
                lemma_put_in(k);
            },
        }
    }
    assert(apart(ps));
    law_pieces_lex(ps);
    let r = rendered(s, xs);
    assert(r == glued(ps, n));
    assert forall|i: int| 0 <= i < n implies #[trigger] token_kinds(r)[i] == slot_kinds(s, xs)[i] by {
        assert(lex(r)[i].kind == ps[i].kind);
    }
    assert(token_kinds(r) =~= slot_kinds(s, xs));
    assert forall|i: int| 0 <= i < n implies (#[trigger] xs[i] matches Slot::Keep(o) ==> lex(r)[i].text
        == lex(s)[o as int].text) by {
        if let Slot::Keep(o) = xs[i] {
            let t = lex(s)[o as int];
            assert(lex(r)[i].text == decode_utf8(ps[i].word));
            assert(t == crate::expr::lexer::mk_tok(s, t.kind, t.start, t.end));
        }
    }
}

// ---- Repairs and the tokens they leave ---------------------------------

/// The kinds that the first `k` repairs put in.
pub open spec fn put_in(rs: Seq<Repair>, k: int) -> Multiset<TokenKind>
    decreases k,
{
    if 0 < k <= rs.len() {
        match rs[k - 1] {
            Repair::Insert { at, tok } => put_in(rs, k - 1).insert(tok),
            Repair::Substitute { at, to } => put_in(rs, k - 1).insert(to),
            Repair::Delete { at } => put_in(rs, k - 1),
        }
    } else {
        Multiset::empty()
    }
}

/// The kinds of the tokens that the first `k` repairs drop from a source of kinds `ks`.
pub open spec fn taken_out(ks: Seq<TokenKind>, rs: Seq<Repair>, k: int) -> Multiset<TokenKind>
    decreases k,
{
    if 0 < k <= rs.len() {
        match rs[k - 1] {
            Repair::Insert { at, tok } => taken_out(ks, rs, k - 1),
            Repair::Substitute { at, to } => taken_out(ks, rs, k - 1).insert(ks[at as int]),
            Repair::Delete { at } => taken_out(ks, rs, k - 1).insert(ks[at as int]),
        }
    } else {
        Multiset::empty()
    }
}

/// Text `t` is source `s` with repairs `rs` made, in some order of the tokens put in at
/// one place: its tokens are those of the source without those dropped and with those
/// put in, no more and no fewer, and every token that no repair drops stands where the
/// repairs before it leave it, with its text.
pub open spec fn is_mended(s: Seq<u8>, rs: Seq<Repair>, t: Seq<u8>) -> bool {
    let n = rs.len() as int;
    let ks = token_kinds(s);
    &&& token_kinds(t).to_multiset().add(taken_out(ks, rs, n)) == ks.to_multiset().add(
        put_in(rs, n),
    )
    &&& forall|o: int|
        0 <= o < ks.len() && !#[trigger] touched(rs, n, o) ==> {
            &&& 0 <= place(rs, n, o) < token_kinds(t).len()
            &&& token_kinds(t)[place(rs, n, o)] == ks[o]
            &&& lex(t)[place(rs, n, o)].text == lex(s)[o].text
        }
}

proof fn lemma_counts_prefix(ks: Seq<TokenKind>, rs: Seq<Repair>, r: Repair, k: int)
    requires
        0 <= k <= rs.len(),
    ensures
        put_in(rs.push(r), k) == put_in(rs, k),
        taken_out(ks, rs.push(r), k) == taken_out(ks, rs, k),
    decreases k,
{
    if k > 0 {
        lemma_counts_prefix(ks, rs, r, k - 1);
        assert(rs.push(r)[k - 1] == rs[k - 1]);
    }
}

/// Each step adds to a stream what its repair puts in and takes away what it drops.
proof fn lemma_counts(s: Seq<u8>, w: Option<(usize, usize)>, p: Seq<Move>)
    requires
        0 <= lex(s).len() - 1 <= usize::MAX,
        legal(lex(s).len() - 1, w, p),
    ensures
        ({
            let n = lex(s).len() - 1;
            let rs = repairs_of(n, p);
            let ks = token_kinds(s);
            slot_kinds(s, run(n, p)).to_multiset().add(taken_out(ks, rs, rs.len() as int))
                == ks.to_multiset().add(put_in(rs, rs.len() as int))
        }),
    decreases p.len(),
{
    let n = lex(s).len() - 1;
    let ks = token_kinds(s);
    let rs = repairs_of(n, p);
    if p.len() == 0 {
        assert(slot_kinds(s, run(n, p)) =~= ks);
    } else {
        let front = p.drop_last();
        let x = run(n, front);
        let y = run(n, p);
        let m = p.last();
        let r = repair_of(n, x, m);
        let old = repairs_of(n, front);
        lemma_counts(s, w, front);
        lemma_shape(n, w, front);
        lemma_counts_prefix(ks, old, r, old.len() as int);
        assert(rs == old.push(r));
        assert(rs[old.len() as int] == r);
        let (a, b) = (slot_kinds(s, x), slot_kinds(s, y));
        match m {
            Move::Del(i) => {
                assert(b =~= a.remove(i));
                vstd::seq_lib::to_multiset_remove(a, i);
                a.to_multiset_ensures();
                assert(a.contains(a[i]));
                assert(a[i] == ks[x[i]->Keep_0 as int]);
            },
            Move::Sub(i, k) => {
                assert(b =~= a.update(i, k));
                a.to_multiset_ensures();
                assert(a.contains(a[i]));
                assert(a[i] == ks[x[i]->Keep_0 as int]);
                vstd::seq_lib::to_multiset_update(a, i, k);
            },
            Move::Ins(g, k) => {
                assert(b =~= a.insert(g, k));
                vstd::seq_lib::to_multiset_insert(a, g, k);
            },
        }
        let (t0, p0) = (taken_out(ks, old, old.len() as int), put_in(old, old.len() as int));
        let (t1, p1) = (taken_out(ks, rs, rs.len() as int), put_in(rs, rs.len() as int));
        assert(a.to_multiset().add(t0) == ks.to_multiset().add(p0));
        assert forall|k: TokenKind| #[trigger]
            b.to_multiset().add(t1).count(k) == ks.to_multiset().add(p1).count(k) by {
            assert(a.to_multiset().add(t0).count(k) == ks.to_multiset().add(p0).count(k));
        }
        assert(b.to_multiset().add(t1) =~= ks.to_multiset().add(p1));
    }
}

/// The tree that a search returns is a parse of a text that is the source with the
/// returned repairs made.
pub proof fn law_repairs_mend(
    s: Seq<u8>,
    w: Option<(usize, usize)>,
    c: RepairCosts,
    max: int,
    r: RepairResult,
)
    requires
        s.len() <= u32::MAX,
        search_result(s, w, c, max, Some(r)),
    ensures
        exists|t: Seq<u8>| #[trigger] is_mended(s, r.repairs@, t) && parsed(*r.tree, t),
{
    let n = lex(s).len() - 1;
    lemma_lex_from(s, 0);
    let p = choose|p: Seq<Move>| #[trigger]
        result_of(s, w, c, p, r) && (c.positive() ==> none_before(s, w, c, p));
    assert(mends(s, w, p));
    lemma_shape(n, w, p);
    lemma_in_place(n, w, p);
    let xs = run(n, p);
    let t = rendered(s, xs);
    law_stream_lexes(s, xs);
    lemma_counts(s, w, p);
    let rs = repairs_of(n, p);
    let ks = token_kinds(s);
    assert(r.repairs@ == rs);
    assert forall|o: int| 0 <= o < ks.len() && !#[trigger] touched(rs, rs.len() as int, o) implies {
        &&& 0 <= place(rs, rs.len() as int, o) < token_kinds(t).len()
        &&& token_kinds(t)[place(rs, rs.len() as int, o)] == ks[o]
        &&& lex(t)[place(rs, rs.len() as int, o)].text == lex(s)[o].text
    } by {
        assert(xs.contains(Slot::Keep(o as usize)));
        let i = choose|i: int| 0 <= i < xs.len() && xs[i] == Slot::Keep(o as usize);
        assert(xs[i] matches Slot::Keep(x) && x == o);
        assert(token_kinds(t)[i] == slot_kinds(s, xs)[i]);
    }
    assert(is_mended(s, rs, t));
}

/// So it is for the repair of a whole source, unless none is cheap enough.
pub proof fn law_recovery_mends(s: Seq<u8>, max: int, r: RepairResult)
    requires
        s.len() <= u32::MAX,
        global_result(s, max, r),
    ensures
        is_fallback(s, r) || exists|t: Seq<u8>| #[trigger]
            is_mended(s, r.repairs@, t) && parsed(*r.tree, t),
{
    if !is_fallback(s, r) {
        law_repairs_mend(s, None, unit_costs(), max, r);
    }
}

} // verus!
