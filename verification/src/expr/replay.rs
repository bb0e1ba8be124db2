//! Repairs, made again: where they say all that a sequence of steps does.

use vstd::prelude::*;

use crate::expr::incremental::law_reparse_same_shape;
use crate::expr::lexer::{lemma_lex_from, lex};
use crate::expr::preference::{lemma_grown, lemma_in_place, place, touched};
use crate::expr::recovery::{
    global_result, law_repairs_fixed, mends, none_below, none_before, result_of, search_result,
    unit_costs, RepairResult,
};
use crate::expr::repair::{
    legal, lemma_path_cost, next_keep, rendered, repair_of, repairs_of, run, Move, Repair,
    RepairCosts, Slot,
};
use crate::expr::shape::{alike, lemma_canon_grouped, norm};

verus! {

/// After the first `k` repairs a kept token, or nothing, stands right before the
/// place of original token `at`: one gap only leads to it.
pub open spec fn pinned(rs: Seq<Repair>, k: int, at: int) -> bool {
    ||| place(rs, k, at) == 0
    ||| exists|u: int|
        0 <= u < at && !(#[trigger] touched(rs, k, u)) && place(rs, k, at) == place(rs, k, u) + 1
}

/// Every insertion is at such a place: none is beside a token put in before.
pub open spec fn all_pinned(rs: Seq<Repair>) -> bool {
    forall|k: int|
        0 <= k < rs.len() ==> (#[trigger] rs[k] matches Repair::Insert { at, tok } ==> pinned(
            rs,
            k,
            at as int,
        ))
}

/// Where the next kept token stands.
proof fn lemma_next_at(n: int, s: Seq<Slot>, g: int) -> (j: int)
    requires
        0 <= g <= s.len(),
    ensures
        g <= j <= s.len(),
        forall|i: int| g <= i < j ==> (#[trigger] s[i]) is Synth,
        j < s.len() ==> s[j] is Keep && s[j]->Keep_0 == next_keep(s, g, n),
        j == s.len() ==> next_keep(s, g, n) == n,
    decreases s.len() - g,
{
    if g < s.len() && s[g] is Synth {
        let j = lemma_next_at(n, s, g + 1);
        j
    } else {
        g
    }
}

/// A stream ends where the place after its last token is.
proof fn lemma_stream_end(n: int, w: Option<(usize, usize)>, p: Seq<Move>)
    requires
        0 <= n <= usize::MAX,
        legal(n, w, p),
    ensures
        run(n, p).len() == place(repairs_of(n, p), repairs_of(n, p).len() as int, n),
    decreases p.len(),
{
    if p.len() > 0 {
        let front = p.drop_last();
        let s = run(n, front);
        let rs = repairs_of(n, front);
        let r = repair_of(n, s, p.last());
        lemma_stream_end(n, w, front);
        lemma_in_place(n, w, front);
        lemma_grown(rs, r, rs.len() as int, n);
        assert(rs.push(r)[rs.len() as int] == r);
        if let Move::Ins(g, u) = p.last() {
            let j = lemma_next_at(n, s, g);
            assert(j < s.len() ==> s[j] is Keep);
        }
    }
}

/// A step at a place that one gap leads to is the gap's.
proof fn lemma_gap(n: int, w: Option<(usize, usize)>, p: Seq<Move>, g: int)
    requires
        0 <= n <= usize::MAX,
        legal(n, w, p),
        0 <= g <= run(n, p).len(),
        pinned(
            repairs_of(n, p),
            repairs_of(n, p).len() as int,
            next_keep(run(n, p), g, n),
        ),
    ensures
        g == place(
            repairs_of(n, p),
            repairs_of(n, p).len() as int,
            next_keep(run(n, p), g, n),
        ),
        0 <= next_keep(run(n, p), g, n) <= n,
{
    let s = run(n, p);
    let rs = repairs_of(n, p);
    let k = rs.len() as int;
    let at = next_keep(s, g, n);
    lemma_in_place(n, w, p);
    lemma_stream_end(n, w, p);
    let j = lemma_next_at(n, s, g);
    if j < s.len() {
        assert(s[j] is Keep);
    }
    assert(j == place(rs, k, at));
    if g < j {
        let u = choose|u: int|
            0 <= u < at && !(#[trigger] touched(rs, k, u)) && place(rs, k, at) == place(rs, k, u)
                + 1;
        assert(s.contains(Slot::Keep(u as usize)));
        let i = choose|i: int| 0 <= i < s.len() && s[i] == Slot::Keep(u as usize);
        assert(s[i] is Keep);
        assert(i == j - 1);
        assert(s[j - 1] is Synth);
    }
}

/// Repairs, each insertion at a place that one gap leads to, fix the steps.
proof fn lemma_replay(n: int, w: Option<(usize, usize)>, p: Seq<Move>, q: Seq<Move>)
    requires
        0 <= n <= usize::MAX,
        legal(n, w, p),
        legal(n, w, q),
        repairs_of(n, p) == repairs_of(n, q),
        all_pinned(repairs_of(n, p)),
    ensures
        p == q,
    decreases p.len(),
{
    let c = RepairCosts { insert: 1, delete: 1, substitute: 1 };
    lemma_path_cost(n, c, p);
    lemma_path_cost(n, c, q);
    if p.len() == 0 {
        assert(p =~= q);
    } else {
        let (x, y) = (p.drop_last(), q.drop_last());
        let (rx, ry) = (repairs_of(n, x), repairs_of(n, y));
        let s = run(n, x);
        lemma_path_cost(n, c, x);
        lemma_path_cost(n, c, y);
        let rp = repairs_of(n, p);
        let last = rx.len() as int;
        assert(rp == rx.push(repair_of(n, s, p.last())));
        assert(rp == ry.push(repair_of(n, run(n, y), q.last())));
        assert(rx =~= rp.drop_last());
        assert(ry =~= rp.drop_last());
        assert(all_pinned(rx)) by {
            assert forall|k: int| 0 <= k < rx.len() implies (#[trigger] rx[k] matches Repair::Insert {
                at,
                tok,
            } ==> pinned(rx, k, at as int)) by {
                assert(rp[k] == rx[k]);
                lemma_pinned_prefix(rx, rp.last(), k);
            }
        }
        lemma_replay(n, w, x, y);
        lemma_in_place(n, w, x);
        assert(rp[last] == repair_of(n, s, p.last()));
        assert(rp[last] == repair_of(n, s, q.last()));
        match (p.last(), q.last()) {
            (Move::Ins(g, u), Move::Ins(h, v)) => {
                let a = lemma_next_at(n, s, g);
                let b = lemma_next_at(n, s, h);
                if a < s.len() {
                    assert(s[a] is Keep);
                }
                if b < s.len() {
                    assert(s[b] is Keep);
                }
                let at = next_keep(s, g, n);
                assert(next_keep(s, h, n) == at);
                assert(rp[last] == (Repair::Insert { at: at as usize, tok: u }));
                assert(pinned(rp, last, at));
                lemma_pinned_prefix(rx, rp.last(), last);
                lemma_gap(n, w, x, g);
                lemma_gap(n, w, x, h);
            },
            (Move::Del(i), Move::Del(j)) => {
                assert(s[i] is Keep && s[j] is Keep);
            },
            (Move::Sub(i, u), Move::Sub(j, v)) => {
                assert(s[i] is Keep && s[j] is Keep);
            },
            _ => {},
        }
        assert(p.last() == q.last());
        assert(p =~= x.push(p.last()));
        assert(q =~= y.push(q.last()));
    }
}

/// What is known of a place does not hang on repairs made later.
proof fn lemma_pinned_prefix(rs: Seq<Repair>, r: Repair, k: int)
    requires
        0 <= k <= rs.len(),
    ensures
        forall|at: int| #[trigger] pinned(rs.push(r), k, at) == pinned(rs, k, at),
{
    assert forall|at: int| #[trigger] pinned(rs.push(r), k, at) == pinned(rs, k, at) by {
        lemma_grown(rs, r, k, at);
        if pinned(rs.push(r), k, at) && place(rs, k, at) != 0 {
            let u = choose|u: int|
                0 <= u < at && !(#[trigger] touched(rs.push(r), k, u)) && place(rs.push(r), k, at)
                    == place(rs.push(r), k, u) + 1;
            lemma_grown(rs, r, k, u);
            assert(!touched(rs, k, u));
        }
        if pinned(rs, k, at) && place(rs, k, at) != 0 {
            let u = choose|u: int|
                0 <= u < at && !(#[trigger] touched(rs, k, u)) && place(rs, k, at) == place(rs, k, u)
                    + 1;
            lemma_grown(rs, r, k, u);
            assert(!touched(rs.push(r), k, u));
        }
    }
}

/// The repairs found fix the tree, unless one of them puts a token in beside
/// another put in before: then the repairs do not say which comes first.
pub proof fn law_repairs_fix_tree(s: Seq<u8>, max: int, a: RepairResult, b: RepairResult)
    requires
        s.len() <= u32::MAX,
        global_result(s, max, a),
        global_result(s, max, b),
        all_pinned(a.repairs@),
    ensures
        a.repairs@ == b.repairs@,
        alike(a.tree@, b.tree@),
        norm(a.tree@) == norm(b.tree@),
{
    let c = unit_costs();
    let n = lex(s).len() - 1;
    lemma_lex_from(s, 0);
    if search_result(s, None, c, max, Some(a)) && search_result(s, None, c, max, Some(b)) {
        law_repairs_fixed(s, None, c, max, a, b);
        let p = choose|p: Seq<Move>| #[trigger]
            result_of(s, None, c, p, a) && (c.positive() ==> none_before(s, None, c, p));
        let q = choose|q: Seq<Move>| #[trigger]
            result_of(s, None, c, q, b) && (c.positive() ==> none_before(s, None, c, q));
        assert(mends(s, None, p) && mends(s, None, q));
        lemma_replay(n, None, p, q);
        lemma_canon_grouped(a.tree@, 0, true);
        law_reparse_same_shape(rendered(s, run(n, p)), a.tree, b.tree);
    } else if search_result(s, None, c, max, Some(a)) {
        let p = choose|p: Seq<Move>| #[trigger]
            result_of(s, None, c, p, a) && (c.positive() ==> none_before(s, None, c, p));
        assert(mends(s, None, p));
        assert(none_below(s, None, c, max + 1));
    } else if search_result(s, None, c, max, Some(b)) {
        let p = choose|p: Seq<Move>| #[trigger]
            result_of(s, None, c, p, b) && (c.positive() ==> none_before(s, None, c, p));
        assert(mends(s, None, p));
        assert(none_below(s, None, c, max + 1));
    }
}

} // verus!
