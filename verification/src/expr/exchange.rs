//! Why a search over rendered streams finds cheapest repairs: a stream that
//! can be reached can be reached through the streams a search has seen, at no
//! higher cost.

use vstd::prelude::*;

use crate::ascii::SPACE;
use crate::expr::lexer::{
    is_digit, is_ident_byte, lemma_digits_end, lemma_ident_end, lemma_lex_from, lemma_tok_at, lex, tok_at, TokenKind,
};
use crate::expr::repair::{
    allowed, canon_bytes, gap_in_window, in_alphabet, lemma_joined_injective, legal, move_cost, moved, next_keep,
    path_cost, rendered, run, slot_text, start, texts, word, words, Move, RepairCosts, Slot,
};

verus! {

// ---- Kept tokens after a gap -------------------------------------------

proof fn lemma_next_keep_before(s: Seq<Slot>, k: int, g: int, n: int)
    requires
        0 <= k < g <= s.len(),
    ensures
        next_keep(s.remove(k), g - 1, n) == next_keep(s, g, n),
    decreases s.len() - g,
{
    if g < s.len() {
        assert(s.remove(k)[g - 1] == s[g]);
        lemma_next_keep_before(s, k, g + 1, n);
    }
}

proof fn lemma_next_keep_removed(s: Seq<Slot>, k: int, g: int, n: int)
    requires
        0 <= g <= k < s.len(),
        s[k] is Synth,
    ensures
        next_keep(s.remove(k), g, n) == next_keep(s, g, n),
    decreases s.len() - g,
{
    if g == k {
        lemma_next_keep_before(s, k, g + 1, n);
    } else {
        assert(s.remove(k)[g] == s[g]);
        lemma_next_keep_removed(s, k, g + 1, n);
    }
}

proof fn lemma_next_keep_changed(s: Seq<Slot>, k: int, t: TokenKind, g: int, n: int)
    requires
        0 <= k < s.len(),
        0 <= g <= s.len(),
        s[k] is Synth,
    ensures
        next_keep(s.update(k, Slot::Synth(t)), g, n) == next_keep(s, g, n),
    decreases s.len() - g,
{
    if g < s.len() {
        lemma_next_keep_changed(s, k, t, g + 1, n);
    }
}

// ---- Shape of streams under a window -----------------------------------

pub open spec fn less_than(x: int, y: int) -> int {
    if x <= y {
        x
    } else {
        y
    }
}

/// Every kept token is an original one, every other one of the alphabet.
pub open spec fn slots_ok(n: int, s: Seq<Slot>) -> bool {
    forall|i: int|
        0 <= i < s.len() ==> match #[trigger] s[i] {
            Slot::Keep(o) => o < n,
            Slot::Synth(k) => in_alphabet(k),
        }
}

/// Repairs inside a window leave the tokens before and after it alone.
pub open spec fn shaped(n: int, w: Option<(usize, usize)>, s: Seq<Slot>) -> bool {
    &&& slots_ok(n, s)
    &&& w matches Some((lo, hi)) ==> {
        let h = less_than(hi as int, n);
        if lo > h {
            s == start(n)
        } else {
            let m = s.len() - (n - h);
            &&& lo <= m
            &&& forall|i: int| 0 <= i < lo ==> #[trigger] s[i] == Slot::Keep(i as usize)
            &&& forall|i: int| m <= i < s.len() ==> #[trigger] s[i] == Slot::Keep((h + (i - m)) as usize)
            &&& forall|i: int|
                lo <= i < m ==> (#[trigger] s[i] matches Slot::Keep(o) ==> lo <= o < h)
        }
    }
}

/// Where a gap lies.
proof fn lemma_gap(n: int, w: Option<(usize, usize)>, s: Seq<Slot>, g: int)
    requires
        0 <= n <= usize::MAX,
        shaped(n, w, s),
        0 <= g <= s.len(),
    ensures
        next_keep(s, g, n) <= n,
        w matches Some((lo, hi)) ==> (gap_in_window(w, next_keep(s, g, n)) <==> {
            let h = less_than(hi as int, n);
            &&& lo <= h
            &&& lo <= g <= s.len() - (n - h)
        }),
        w matches Some((lo, hi)) ==> {
            let h = less_than(hi as int, n);
            &&& lo <= h && lo <= g <= s.len() - (n - h) ==> lo <= next_keep(s, g, n) <= h
            &&& lo > h ==> next_keep(s, g, n) == g
        },
    decreases s.len() - g,
{
    if g < s.len() {
        lemma_gap(n, w, s, g + 1);
    }
}

pub proof fn lemma_shape(n: int, w: Option<(usize, usize)>, path: Seq<Move>)
    requires
        0 <= n <= usize::MAX,
        legal(n, w, path),
    ensures
        shaped(n, w, run(n, path)),
    decreases path.len(),
{
    if path.len() > 0 {
        let p = run(n, path.drop_last());
        lemma_shape(n, w, path.drop_last());
        match path.last() {
            Move::Del(i) => {},
            Move::Sub(i, k) => {},
            Move::Ins(g, k) => {
                lemma_gap(n, w, p, g);
            },
        }
    }
}

/// Which slots and gaps a step may touch depends on their place alone.
pub proof fn lemma_transfer(n: int, w: Option<(usize, usize)>, s: Seq<Slot>, t: Seq<Slot>, m: Move)
    requires
        0 <= n <= usize::MAX,
        shaped(n, w, s),
        shaped(n, w, t),
        s.len() == t.len(),
        allowed(n, w, t, m),
        m matches Move::Del(i) ==> s[i] is Keep,
        m matches Move::Sub(i, k) ==> s[i] is Keep,
    ensures
        allowed(n, w, s, m),
{
    match m {
        Move::Del(i) => {},
        Move::Sub(i, k) => {},
        Move::Ins(g, k) => {
            lemma_gap(n, w, s, g);
            lemma_gap(n, w, t, g);
        },
    }
}

// ---- Undoing a synthesized token ---------------------------------------

proof fn lemma_push(n: int, w: Option<(usize, usize)>, c: RepairCosts, path: Seq<Move>, m: Move)
    requires
        legal(n, w, path),
        allowed(n, w, run(n, path), m),
    ensures
        legal(n, w, path.push(m)),
        run(n, path.push(m)) == moved(run(n, path), m),
        path_cost(c, path.push(m)) == path_cost(c, path) + move_cost(c, m),
{
    assert(path.push(m).drop_last() =~= path);
}

/// A stream without one of its synthesized tokens can be reached too, without
/// its insertion or with a deletion in place of its substitution.
#[verifier::spinoff_prover]
#[verifier::rlimit(100)]
pub proof fn lemma_remove_synth(
    n: int,
    w: Option<(usize, usize)>,
    c: RepairCosts,
    path: Seq<Move>,
    k: int,
) -> (r: Seq<Move>)
    requires
        legal(n, w, path),
        0 <= k < run(n, path).len(),
        run(n, path)[k] is Synth,
    ensures
        legal(n, w, r),
        run(n, r) == run(n, path).remove(k),
        path_cost(c, r) == path_cost(c, path) - c.insert || path_cost(c, r) == path_cost(c, path)
            - c.substitute + c.delete,
    decreases path.len(),
{
    if path.len() == 0 {
        path
    } else {
        let front = path.drop_last();
        let p = run(n, front);
        let s = run(n, path);
        match path.last() {
            Move::Ins(g, t) => {
                if k == g {
                    assert(s.remove(k) =~= p);
                    front
                } else if k < g {
                    let q = lemma_remove_synth(n, w, c, front, k);
                    lemma_next_keep_before(p, k, g, n);
                    lemma_push(n, w, c, q, Move::Ins(g - 1, t));
                    assert(moved(p.remove(k), Move::Ins(g - 1, t)) =~= s.remove(k));
                    q.push(Move::Ins(g - 1, t))
                } else {
                    assert(s[k] == p[k - 1]);
                    let q = lemma_remove_synth(n, w, c, front, k - 1);
                    lemma_next_keep_removed(p, k - 1, g, n);
                    lemma_push(n, w, c, q, Move::Ins(g, t));
                    assert(moved(p.remove(k - 1), Move::Ins(g, t)) =~= s.remove(k));
                    q.push(Move::Ins(g, t))
                }
            },
            Move::Del(i) => {
                if k < i {
                    let q = lemma_remove_synth(n, w, c, front, k);
                    assert(p.remove(k)[i - 1] == p[i]);
                    lemma_push(n, w, c, q, Move::Del(i - 1));
                    assert(moved(p.remove(k), Move::Del(i - 1)) =~= s.remove(k));
                    q.push(Move::Del(i - 1))
                } else {
                    assert(s[k] == p[k + 1]);
                    let q = lemma_remove_synth(n, w, c, front, k + 1);
                    assert(p.remove(k + 1)[i] == p[i]);
                    lemma_push(n, w, c, q, Move::Del(i));
                    assert(moved(p.remove(k + 1), Move::Del(i)) =~= s.remove(k));
                    q.push(Move::Del(i))
                }
            },
            Move::Sub(i, t) => {
                if k == i {
                    lemma_push(n, w, c, front, Move::Del(i));
                    assert(p.remove(i) =~= s.remove(k));
                    front.push(Move::Del(i))
                } else {
                    assert(s[k] == p[k]);
                    let q = lemma_remove_synth(n, w, c, front, k);
                    let j = if k < i {
                        i - 1
                    } else {
                        i
                    };
                    assert(p.remove(k)[j] == p[i]);
                    lemma_push(n, w, c, q, Move::Sub(j, t));
                    assert(moved(p.remove(k), Move::Sub(j, t)) =~= s.remove(k));
                    q.push(Move::Sub(j, t))
                }
            },
        }
    }
}

/// A stream with another token in place of one it synthesizes can be reached
/// at the same cost.
#[verifier::spinoff_prover]
#[verifier::rlimit(100)]
pub proof fn lemma_change_synth(
    n: int,
    w: Option<(usize, usize)>,
    c: RepairCosts,
    path: Seq<Move>,
    k: int,
    u: TokenKind,
) -> (r: Seq<Move>)
    requires
        legal(n, w, path),
        0 <= k < run(n, path).len(),
        run(n, path)[k] is Synth,
        in_alphabet(u),
    ensures
        legal(n, w, r),
        run(n, r) == run(n, path).update(k, Slot::Synth(u)),
        path_cost(c, r) == path_cost(c, path),
    decreases path.len(),
{
    if path.len() == 0 {
        path
    } else {
        let front = path.drop_last();
        let p = run(n, front);
        let s = run(n, path);
        let z = Slot::Synth(u);
        match path.last() {
            Move::Ins(g, t) => {
                if k == g {
                    lemma_push(n, w, c, front, Move::Ins(g, u));
                    assert(moved(p, Move::Ins(g, u)) =~= s.update(k, z));
                    front.push(Move::Ins(g, u))
                } else {
                    let j = if k < g {
                        k
                    } else {
                        k - 1
                    };
                    assert(s[k] == p[j]);
                    let q = lemma_change_synth(n, w, c, front, j, u);
                    lemma_next_keep_changed(p, j, u, g, n);
                    lemma_push(n, w, c, q, Move::Ins(g, t));
                    assert(moved(p.update(j, z), Move::Ins(g, t)) =~= s.update(k, z));
                    q.push(Move::Ins(g, t))
                }
            },
            Move::Del(i) => {
                let j = if k < i {
                    k
                } else {
                    k + 1
                };
                assert(s[k] == p[j]);
                let q = lemma_change_synth(n, w, c, front, j, u);
                lemma_push(n, w, c, q, Move::Del(i));
                assert(moved(p.update(j, z), Move::Del(i)) =~= s.update(k, z));
                q.push(Move::Del(i))
            },
            Move::Sub(i, t) => {
                if k == i {
                    lemma_push(n, w, c, front, Move::Sub(i, u));
                    assert(moved(p, Move::Sub(i, u)) =~= s.update(k, z));
                    front.push(Move::Sub(i, u))
                } else {
                    let q = lemma_change_synth(n, w, c, front, k, u);
                    lemma_push(n, w, c, q, Move::Sub(i, t));
                    assert(moved(p.update(k, z), Move::Sub(i, t)) =~= s.update(k, z));
                    q.push(Move::Sub(i, t))
                }
            },
        }
    }
}

// ---- Rendering ---------------------------------------------------------

proof fn lemma_tok_word(s: Seq<u8>, i: int)
    requires
        0 <= i < s.len(),
    ensures
        tok_at(s, i) matches Some((k, e)) ==> i < e <= s.len() && forall|j: int|
            i <= j < e ==> #[trigger] s[j] != SPACE,
{
    lemma_tok_at(s, i);
    if is_digit(s[i]) {
        lemma_digits_end(s, i + 1);
    }
    if is_ident_byte(s[i]) {
        lemma_ident_end(s, i + 1);
    }
}

/// The texts of a candidate stream are words.
pub proof fn lemma_texts(s: Seq<u8>, slots: Seq<Slot>)
    requires
        slots_ok(lex(s).len() - 1, slots),
    ensures
        words(texts(s, slots)),
{
    let a = lex(s);
    lemma_lex_from(s, 0);
    assert forall|i: int| 0 <= i < slots.len() implies word(#[trigger] texts(s, slots)[i]) by {
        match slots[i] {
            Slot::Keep(o) => {
                let t = a[o as int];
                assert(t.kind != TokenKind::Eof);
                lemma_tok_word(s, t.start);
                let x = s.subrange(t.start, t.end);
                assert forall|j: int| 0 <= j < x.len() implies #[trigger] x[j] != SPACE by {
                    assert(x[j] == s[t.start + j]);
                }
            },
            Slot::Synth(k) => {},
        }
    }
}

/// Streams that render alike still do after the same step.
pub proof fn lemma_alike(s: Seq<u8>, x: Seq<Slot>, y: Seq<Slot>, m: Move)
    requires
        texts(s, x) == texts(s, y),
        match m {
            Move::Del(i) => 0 <= i < x.len(),
            Move::Sub(i, k) => 0 <= i < x.len(),
            Move::Ins(g, k) => 0 <= g <= x.len(),
        },
    ensures
        texts(s, moved(x, m)) == texts(s, moved(y, m)),
        rendered(s, moved(x, m)) == rendered(s, moved(y, m)),
{
    assert(x.len() == texts(s, x).len());
    assert(y.len() == texts(s, y).len());
    assert forall|i: int| 0 <= i < x.len() implies slot_text(s, x[i]) == slot_text(s, y[i]) by {
        assert(texts(s, x)[i] == texts(s, y)[i]);
    }
    assert(texts(s, moved(x, m)) =~= texts(s, moved(y, m)));
}

// ---- The search invariant ----------------------------------------------

/// Among the streams at the end of `paths`, one that renders as `txt` costs at
/// most `bound`.
pub open spec fn seen(
    s: Seq<u8>,
    n: int,
    c: RepairCosts,
    paths: Seq<Seq<Move>>,
    txt: Seq<u8>,
    bound: int,
) -> bool {
    exists|i: int|
        0 <= i < paths.len() && rendered(s, run(n, #[trigger] paths[i])) == txt && path_cost(
            c,
            paths[i],
        ) <= bound
}

/// One of the streams at the end of `paths` costs at most `bound`.
pub open spec fn waiting(c: RepairCosts, paths: Seq<Seq<Move>>, bound: int) -> bool {
    exists|i: int| 0 <= i < paths.len() && path_cost(c, #[trigger] paths[i]) <= bound
}

/// The streams expanded so far, `dn`, and those waiting, `fr`, belong to a
/// search up to cost `max`: what a step from an expanded stream leads to is
/// expanded or waiting.
pub open spec fn search_ok(
    s: Seq<u8>,
    n: int,
    w: Option<(usize, usize)>,
    c: RepairCosts,
    max: int,
    dn: Seq<Seq<Move>>,
    fr: Seq<Seq<Move>>,
) -> bool {
    &&& seen(s, n, c, dn, rendered(s, start(n)), 0) || seen(s, n, c, fr, rendered(s, start(n)), 0)
    &&& forall|i: int| 0 <= i < dn.len() ==> legal(n, w, #[trigger] dn[i])
    &&& forall|i: int, m: Move|
        0 <= i < dn.len() && #[trigger] allowed(n, w, run(n, dn[i]), m) && path_cost(c, dn[i])
            + move_cost(c, m) <= max ==> {
            let txt = rendered(s, moved(run(n, dn[i]), m));
            let bound = path_cost(c, dn[i]) + move_cost(c, m);
            seen(s, n, c, dn, txt, bound) || seen(s, n, c, fr, txt, bound)
        }
}

/// Every stream that can be reached within the bound has been expanded at no
/// higher cost, or something as cheap is still waiting.
#[verifier::spinoff_prover]
#[verifier::rlimit(100)]
pub proof fn lemma_search(
    s: Seq<u8>,
    n: int,
    w: Option<(usize, usize)>,
    c: RepairCosts,
    max: int,
    dn: Seq<Seq<Move>>,
    fr: Seq<Seq<Move>>,
    path: Seq<Move>,
)
    requires
        n == lex(s).len() - 1,
        0 <= n <= usize::MAX,
        c.paid(),
        search_ok(s, n, w, c, max, dn, fr),
        legal(n, w, path),
        path_cost(c, path) <= max,
    ensures
        seen(s, n, c, dn, rendered(s, run(n, path)), path_cost(c, path)) || waiting(
            c,
            fr,
            path_cost(c, path),
        ),
    decreases path_cost(c, path), path.len(),
{
    let total = path_cost(c, path);
    let txt = rendered(s, run(n, path));
    if path.len() == 0 {
        if seen(s, n, c, fr, txt, 0) {
            lemma_seen_waiting(s, n, c, fr, txt, 0, total);
        }
    } else {
        let front = path.drop_last();
        let t = run(n, front);
        let m = path.last();
        crate::expr::repair::lemma_path_cost(n, c, front);
        lemma_search(s, n, w, c, max, dn, fr, front);
        if waiting(c, fr, path_cost(c, front)) {
            lemma_waiting_more(c, fr, path_cost(c, front), total);
        } else {
            let e = choose|i: int|
                0 <= i < dn.len() && rendered(s, run(n, #[trigger] dn[i])) == rendered(s, t)
                    && path_cost(c, dn[i]) <= path_cost(c, front);
            let d = dn[e];
            let x = run(n, d);
            lemma_shape(n, w, front);
            lemma_shape(n, w, d);
            lemma_texts(s, t);
            lemma_texts(s, x);
            lemma_joined_injective(texts(s, x), texts(s, t));
            assert(x.len() == texts(s, x).len() && t.len() == texts(s, t).len());
            lemma_alike(s, x, t, m);
            if keeps(x, m) {
                lemma_transfer(n, w, x, t, m);
                let bound = path_cost(c, d) + move_cost(c, m);
                if seen(s, n, c, dn, txt, bound) {
                    lemma_seen_more(s, n, c, dn, txt, bound, total);
                } else {
                    lemma_seen_waiting(s, n, c, fr, txt, bound, total);
                }
            } else {
                let r = match m {
                    Move::Del(i) => lemma_remove_synth(n, w, c, d, i),
                    Move::Sub(i, k) => lemma_change_synth(n, w, c, d, i, k),
                    Move::Ins(g, k) => d,
                };
                crate::expr::repair::lemma_path_cost(n, c, r);
                assert(run(n, r) == moved(x, m));
                lemma_search(s, n, w, c, max, dn, fr, r);
                if seen(s, n, c, dn, txt, path_cost(c, r)) {
                    lemma_seen_more(s, n, c, dn, txt, path_cost(c, r), total);
                } else {
                    lemma_waiting_more(c, fr, path_cost(c, r), total);
                }
            }
        }
    }
}

/// The text of a token that repairs can put in.
pub open spec fn can_be_put_in(txt: Seq<u8>) -> bool {
    exists|k: TokenKind| in_alphabet(k) && #[trigger] canon_bytes(k) == txt
}

/// No step deletes or replaces a token that repairs can put in.
pub open spec fn plain(s: Seq<u8>, n: int, path: Seq<Move>) -> bool
    decreases path.len(),
{
    path.len() > 0 ==> plain(s, n, path.drop_last()) && {
        let t = run(n, path.drop_last());
        match path.last() {
            Move::Del(i) => !can_be_put_in(slot_text(s, t[i])),
            Move::Sub(i, k) => !can_be_put_in(slot_text(s, t[i])),
            Move::Ins(g, k) => true,
        }
    }
}

/// The same of such streams, whatever repairs cost.
#[verifier::spinoff_prover]
#[verifier::rlimit(60)]
pub proof fn lemma_search_plain(
    s: Seq<u8>,
    n: int,
    w: Option<(usize, usize)>,
    c: RepairCosts,
    max: int,
    dn: Seq<Seq<Move>>,
    fr: Seq<Seq<Move>>,
    path: Seq<Move>,
)
    requires
        n == lex(s).len() - 1,
        0 <= n <= usize::MAX,
        search_ok(s, n, w, c, max, dn, fr),
        legal(n, w, path),
        plain(s, n, path),
        path_cost(c, path) <= max,
    ensures
        seen(s, n, c, dn, rendered(s, run(n, path)), path_cost(c, path)) || waiting(
            c,
            fr,
            path_cost(c, path),
        ),
    decreases path.len(),
{
    let total = path_cost(c, path);
    let txt = rendered(s, run(n, path));
    if path.len() == 0 {
        if seen(s, n, c, fr, txt, 0) {
            lemma_seen_waiting(s, n, c, fr, txt, 0, total);
        }
    } else {
        let front = path.drop_last();
        let t = run(n, front);
        let m = path.last();
        lemma_search_plain(s, n, w, c, max, dn, fr, front);
        if waiting(c, fr, path_cost(c, front)) {
            lemma_waiting_more(c, fr, path_cost(c, front), total);
        } else {
            let e = choose|i: int|
                0 <= i < dn.len() && rendered(s, run(n, #[trigger] dn[i])) == rendered(s, t)
                    && path_cost(c, dn[i]) <= path_cost(c, front);
            let d = dn[e];
            let x = run(n, d);
            lemma_shape(n, w, front);
            lemma_shape(n, w, d);
            lemma_texts(s, t);
            lemma_texts(s, x);
            lemma_joined_injective(texts(s, x), texts(s, t));
            assert(x.len() == texts(s, x).len() && t.len() == texts(s, t).len());
            lemma_alike(s, x, t, m);
            let i = match m {
                Move::Del(i) => i,
                Move::Sub(i, k) => i,
                Move::Ins(g, k) => 0,
            };
            if !(m is Ins) {
                assert(texts(s, x)[i] == texts(s, t)[i]);
                if let Slot::Synth(k) = x[i] {
                    assert(in_alphabet(k) && canon_bytes(k) == slot_text(s, t[i]));
                }
            }
            assert(keeps(x, m));
            lemma_transfer(n, w, x, t, m);
            let bound = path_cost(c, d) + move_cost(c, m);
            if seen(s, n, c, dn, txt, bound) {
                lemma_seen_more(s, n, c, dn, txt, bound, total);
            } else {
                lemma_seen_waiting(s, n, c, fr, txt, bound, total);
            }
        }
    }
}

/// The step touches no synthesized token.
pub open spec fn keeps(x: Seq<Slot>, m: Move) -> bool {
    match m {
        Move::Del(i) => x[i] is Keep,
        Move::Sub(i, k) => x[i] is Keep,
        Move::Ins(g, k) => true,
    }
}

proof fn lemma_seen_more(
    s: Seq<u8>,
    n: int,
    c: RepairCosts,
    paths: Seq<Seq<Move>>,
    txt: Seq<u8>,
    b: int,
    b2: int,
)
    requires
        seen(s, n, c, paths, txt, b),
        b <= b2,
    ensures
        seen(s, n, c, paths, txt, b2),
{
    let i = choose|i: int|
        0 <= i < paths.len() && rendered(s, run(n, #[trigger] paths[i])) == txt && path_cost(
            c,
            paths[i],
        ) <= b;
    assert(path_cost(c, paths[i]) <= b2);
}

proof fn lemma_seen_waiting(
    s: Seq<u8>,
    n: int,
    c: RepairCosts,
    paths: Seq<Seq<Move>>,
    txt: Seq<u8>,
    b: int,
    b2: int,
)
    requires
        seen(s, n, c, paths, txt, b),
        b <= b2,
    ensures
        waiting(c, paths, b2),
{
    let i = choose|i: int|
        0 <= i < paths.len() && rendered(s, run(n, #[trigger] paths[i])) == txt && path_cost(
            c,
            paths[i],
        ) <= b;
    assert(path_cost(c, paths[i]) <= b2);
}

proof fn lemma_waiting_more(c: RepairCosts, paths: Seq<Seq<Move>>, b: int, b2: int)
    requires
        waiting(c, paths, b),
        b <= b2,
    ensures
        waiting(c, paths, b2),
{
    let i = choose|i: int| 0 <= i < paths.len() && path_cost(c, #[trigger] paths[i]) <= b;
    assert(path_cost(c, paths[i]) <= b2);
}

} // verus!
