//! Which of several cheapest repairs is preferred, and why a search finds it.

use vstd::prelude::*;

use crate::expr::exchange::{
    keeps, lemma_alike, lemma_change_synth, lemma_remove_synth, lemma_search, lemma_shape,
    lemma_texts, lemma_transfer, search_ok, seen, waiting,
};
use crate::expr::expand::deletions_upto;
use crate::expr::frontier::{
    lemma_repairs_asym, lemma_repairs_order, repair_order, repairs_less,
};
use crate::expr::lexer::lex;
use crate::expr::repair::{
    allowed, in_alphabet, lemma_joined_injective, lemma_path_cost, legal, move_cost, moved, next_keep, path_cost,
    rendered, repair_of, repairs_of, run, start, sum_upto, texts, Move, Repair, RepairCosts,
    Slot,
};

verus! {

/// Number of deletions of a sequence of steps.
pub open spec fn deleted(n: int, p: Seq<Move>) -> int {
    deletions_upto(repairs_of(n, p), p.len() as int)
}

/// `p` is preferred to `q`: it is cheaper, or as cheap with fewer deletions, or
/// as good with preferred repairs.
pub open spec fn precedes(n: int, c: RepairCosts, p: Seq<Move>, q: Seq<Move>) -> bool {
    path_cost(c, p) < path_cost(c, q) || path_cost(c, p) == path_cost(c, q) && (deleted(n, p)
        < deleted(n, q) || deleted(n, p) == deleted(n, q) && repairs_less(
        repairs_of(n, p),
        repairs_of(n, q),
        0,
    ))
}

/// `q` is not preferred to `p`.
pub open spec fn upto(n: int, c: RepairCosts, p: Seq<Move>, q: Seq<Move>) -> bool {
    !precedes(n, c, q, p)
}

pub proof fn lemma_upto(n: int, c: RepairCosts, p: Seq<Move>, q: Seq<Move>, r: Seq<Move>)
    ensures
        upto(n, c, p, q) && upto(n, c, q, r) ==> upto(n, c, p, r),
        precedes(n, c, p, q) ==> upto(n, c, p, q),
        upto(n, c, p, q) ==> path_cost(c, p) <= path_cost(c, q),
        path_cost(c, p) < path_cost(c, q) ==> upto(n, c, p, q),
{
    if upto(n, c, p, q) && upto(n, c, q, r) && path_cost(c, p) == path_cost(c, r) && deleted(n, p)
        == deleted(n, r) {
        lemma_repairs_order(repairs_of(n, p), repairs_of(n, q), repairs_of(n, r), 0);
    }
    if precedes(n, c, p, q) && path_cost(c, p) == path_cost(c, q) && deleted(n, p) == deleted(n, q) {
        lemma_repairs_asym(repairs_of(n, p), repairs_of(n, q), 0);
    }
}

pub proof fn lemma_upto_self(n: int, c: RepairCosts, p: Seq<Move>)
    ensures
        upto(n, c, p, p),
{
    if precedes(n, c, p, p) {
        lemma_upto(n, c, p, p, p);
    }
}

// ---- Where kept tokens stand -------------------------------------------

/// Place of original token `o` after the first `k` repairs, if it is kept.
pub open spec fn place(rs: Seq<Repair>, k: int, o: int) -> int
    decreases k,
{
    if 0 < k <= rs.len() {
        place(rs, k - 1, o) + match rs[k - 1] {
            Repair::Delete { at } => if at < o {
                -1int
            } else {
                0
            },
            Repair::Insert { at, tok } => if at <= o {
                1
            } else {
                0
            },
            Repair::Substitute { at, to } => 0,
        }
    } else {
        o
    }
}

/// One of the first `k` repairs drops original token `o`.
pub open spec fn touched(rs: Seq<Repair>, k: int, o: int) -> bool
    decreases k,
{
    0 < k <= rs.len() && (touched(rs, k - 1, o) || match rs[k - 1] {
        Repair::Delete { at } => at == o,
        Repair::Substitute { at, to } => at == o,
        Repair::Insert { at, tok } => false,
    })
}

/// Kept tokens are in order.
pub open spec fn in_order(s: Seq<Slot>) -> bool {
    forall|i: int, j: int|
        0 <= i < j < s.len() ==> (#[trigger] s[i] matches Slot::Keep(a) ==> #[trigger] s[j] matches Slot::Keep(
            b,
        ) ==> a < b)
}

/// Kept tokens stand where the repairs say.
pub open spec fn in_place(n: int, s: Seq<Slot>, rs: Seq<Repair>) -> bool {
    &&& in_order(s)
    &&& forall|i: int|
        0 <= i < s.len() ==> (#[trigger] s[i] matches Slot::Keep(o) ==> i == place(
            rs,
            rs.len() as int,
            o as int,
        ) && o < n && !touched(rs, rs.len() as int, o as int))
    &&& forall|o: int|
        0 <= o < n && !#[trigger] touched(rs, rs.len() as int, o) ==> s.contains(
            Slot::Keep(o as usize),
        )
}

proof fn lemma_rank_place(x: Seq<Repair>, y: Seq<Repair>, k: int, o: int)
    requires
        0 <= k <= x.len(),
        k <= y.len(),
        forall|i: int| 0 <= i < k ==> repair_order(#[trigger] x[i]) == repair_order(y[i]),
    ensures
        place(x, k, o) == place(y, k, o),
        touched(x, k, o) == touched(y, k, o),
    decreases k,
{
    if k > 0 {
        lemma_rank_place(x, y, k - 1, o);
        assert(repair_order(x[k - 1]) == repair_order(y[k - 1]));
    }
}

/// The next kept token is at or after every gap up to it.
proof fn lemma_next(n: int, s: Seq<Slot>, g: int, j: int)
    requires
        in_order(s),
        0 <= g <= s.len(),
        0 <= j < s.len(),
        s[j] is Keep,
        s[j]->Keep_0 < n,
    ensures
        g <= j ==> next_keep(s, g, n) <= s[j]->Keep_0,
        j < g ==> next_keep(s, g, n) > s[j]->Keep_0,
    decreases s.len() - g,
{
    if g < s.len() {
        match s[g] {
            Slot::Keep(i) => {
                if j < g {
                    assert(s[j]->Keep_0 < s[g]->Keep_0);
                } else if g < j {
                    assert(s[g]->Keep_0 < s[j]->Keep_0);
                }
            },
            Slot::Synth(k) => {
                lemma_next(n, s, g + 1, j);
            },
        }
    }
}

proof fn lemma_next_bound(n: int, s: Seq<Slot>, g: int)
    requires
        forall|i: int| 0 <= i < s.len() ==> (#[trigger] s[i] matches Slot::Keep(o) ==> o < n),
        0 <= g <= s.len(),
    ensures
        0 <= n ==> 0 <= next_keep(s, g, n) <= n,
    decreases s.len() - g,
{
    if g < s.len() {
        lemma_next_bound(n, s, g + 1);
    }
}

/// A place after one more repair is known from those before it.
pub proof fn lemma_grown(rs: Seq<Repair>, r: Repair, k: int, o: int)
    requires
        0 <= k <= rs.len(),
    ensures
        place(rs.push(r), k, o) == place(rs, k, o),
        touched(rs.push(r), k, o) == touched(rs, k, o),
    decreases k,
{
    if k > 0 {
        lemma_grown(rs, r, k - 1, o);
    }
}

#[verifier::spinoff_prover]
#[verifier::rlimit(60)]
proof fn lemma_in_place_step(
    n: int,
    w: Option<(usize, usize)>,
    s: Seq<Slot>,
    rs: Seq<Repair>,
    m: Move,
)
    requires
        0 <= n <= usize::MAX,
        in_place(n, s, rs),
        allowed(n, w, s, m),
    ensures
        in_place(n, moved(s, m), rs.push(repair_of(n, s, m))),
{
    let r = repair_of(n, s, m);
    let qs = rs.push(r);
    let k = rs.len() as int;
    let t = moved(s, m);
    assert(qs[k] == r);
    assert forall|o: int| #[trigger] touched(qs, k + 1, o) == (touched(rs, k, o) || match r {
        Repair::Delete { at } => at == o,
        Repair::Substitute { at, to } => at == o,
        Repair::Insert { at, tok } => false,
    }) by {
        lemma_grown(rs, r, k, o);
    }
    match m {
        Move::Del(i) => {
            assert forall|j: int| 0 <= j < t.len() implies (#[trigger] t[j] matches Slot::Keep(o) ==> j
                == place(qs, k + 1, o as int) && o < n && !touched(qs, k + 1, o as int)) by {
                let j0 = if j < i {
                    j
                } else {
                    j + 1
                };
                assert(t[j] == s[j0]);
                if let Slot::Keep(o) = s[j0] {
                    lemma_grown(rs, r, k, o as int);
                    if j0 < i {
                        assert(s[j0]->Keep_0 < s[i]->Keep_0);
                    } else {
                        assert(s[i]->Keep_0 < s[j0]->Keep_0);
                    }
                }
            }
            assert forall|o: int| 0 <= o < n && !#[trigger] touched(qs, k + 1, o) implies t.contains(
                Slot::Keep(o as usize),
            ) by {
                assert(!touched(rs, k, o));
                let j0 = choose|j0: int| 0 <= j0 < s.len() && s[j0] == Slot::Keep(o as usize);
                let j = if j0 < i {
                    j0
                } else {
                    j0 - 1
                };
                assert(j0 != i);
                assert(t[j] == s[j0]);
            }
            assert(in_order(t)) by {
                assert forall|x: int, y: int| 0 <= x < y < t.len() implies (#[trigger] t[x] matches Slot::Keep(
                    a,
                ) ==> #[trigger] t[y] matches Slot::Keep(b) ==> a < b) by {
                    let x0 = if x < i {
                        x
                    } else {
                        x + 1
                    };
                    let y0 = if y < i {
                        y
                    } else {
                        y + 1
                    };
                    assert(t[x] == s[x0] && t[y] == s[y0]);
                }
            }
        },
        Move::Sub(i, u) => {
            assert forall|j: int| 0 <= j < t.len() implies (#[trigger] t[j] matches Slot::Keep(o) ==> j
                == place(qs, k + 1, o as int) && o < n && !touched(qs, k + 1, o as int)) by {
                if let Slot::Keep(o) = t[j] {
                    assert(t[j] == s[j]);
                    lemma_grown(rs, r, k, o as int);
                    if j < i {
                        assert(s[j]->Keep_0 < s[i]->Keep_0);
                    } else {
                        assert(s[i]->Keep_0 < s[j]->Keep_0);
                    }
                }
            }
            assert forall|o: int| 0 <= o < n && !#[trigger] touched(qs, k + 1, o) implies t.contains(
                Slot::Keep(o as usize),
            ) by {
                assert(!touched(rs, k, o));
                let j = choose|j: int| 0 <= j < s.len() && s[j] == Slot::Keep(o as usize);
                assert(j != i);
                assert(t[j] == s[j]);
            }
            assert(in_order(t)) by {
                assert forall|x: int, y: int| 0 <= x < y < t.len() implies (#[trigger] t[x] matches Slot::Keep(
                    a,
                ) ==> #[trigger] t[y] matches Slot::Keep(b) ==> a < b) by {
                    assert(x != i ==> t[x] == s[x]);
                    assert(y != i ==> t[y] == s[y]);
                }
            }
        },
        Move::Ins(g, u) => {
            lemma_next_bound(n, s, g);
            assert forall|j: int| 0 <= j < t.len() implies (#[trigger] t[j] matches Slot::Keep(o) ==> j
                == place(qs, k + 1, o as int) && o < n && !touched(qs, k + 1, o as int)) by {
                if let Slot::Keep(o) = t[j] {
                    let j0 = if j < g {
                        j
                    } else {
                        j - 1
                    };
                    assert(j != g);
                    assert(t[j] == s[j0]);
                    lemma_grown(rs, r, k, o as int);
                    lemma_next(n, s, g, j0);
                }
            }
            assert forall|o: int| 0 <= o < n && !#[trigger] touched(qs, k + 1, o) implies t.contains(
                Slot::Keep(o as usize),
            ) by {
                assert(!touched(rs, k, o));
                let j0 = choose|j0: int| 0 <= j0 < s.len() && s[j0] == Slot::Keep(o as usize);
                let j = if j0 < g {
                    j0
                } else {
                    j0 + 1
                };
                assert(t[j] == s[j0]);
            }
            assert(in_order(t)) by {
                assert forall|x: int, y: int| 0 <= x < y < t.len() implies (#[trigger] t[x] matches Slot::Keep(
                    a,
                ) ==> #[trigger] t[y] matches Slot::Keep(b) ==> a < b) by {
                    let x0 = if x < g {
                        x
                    } else {
                        x - 1
                    };
                    let y0 = if y < g {
                        y
                    } else {
                        y - 1
                    };
                    assert(x != g ==> t[x] == s[x0]);
                    assert(y != g ==> t[y] == s[y0]);
                }
            }
        },
    }
}

/// Kept tokens stand where the repairs made say.
pub proof fn lemma_in_place(n: int, w: Option<(usize, usize)>, p: Seq<Move>)
    requires
        0 <= n <= usize::MAX,
        legal(n, w, p),
    ensures
        in_place(n, run(n, p), repairs_of(n, p)),
    decreases p.len(),
{
    if p.len() > 0 {
        lemma_in_place(n, w, p.drop_last());
        lemma_in_place_step(
            n,
            w,
            run(n, p.drop_last()),
            repairs_of(n, p.drop_last()),
            p.last(),
        );
    } else {
        let s = run(n, p);
        let rs = repairs_of(n, p);
        assert forall|o: int| 0 <= o < n && !#[trigger] touched(rs, rs.len() as int, o) implies s.contains(
            Slot::Keep(o as usize),
        ) by {
            assert(s[o] == Slot::Keep(o as usize));
        }
    }
}

proof fn lemma_next_same(n: int, s: Seq<Slot>, t: Seq<Slot>, g: int)
    requires
        s.len() == t.len(),
        0 <= g <= s.len(),
        forall|i: int| 0 <= i < s.len() && #[trigger] s[i] is Keep ==> t[i] == s[i],
        forall|i: int| 0 <= i < s.len() && #[trigger] t[i] is Keep ==> t[i] == s[i],
    ensures
        next_keep(s, g, n) == next_keep(t, g, n),
    decreases s.len() - g,
{
    if g < s.len() {
        assert(s[g] is Keep || t[g] is Synth);
        lemma_next_same(n, s, t, g + 1);
    }
}

/// After repairs of the same ranks, a step is the same repair.
proof fn lemma_same_repair(
    n: int,
    w: Option<(usize, usize)>,
    d: Seq<Move>,
    f: Seq<Move>,
    m: Move,
)
    requires
        0 <= n <= usize::MAX,
        legal(n, w, d),
        legal(n, w, f),
        d.len() == f.len(),
        run(n, d).len() == run(n, f).len(),
        allowed(n, w, run(n, d), m),
        allowed(n, w, run(n, f), m),
        forall|i: int|
            0 <= i < d.len() ==> repair_order(#[trigger] repairs_of(n, d)[i]) == repair_order(
                repairs_of(n, f)[i],
            ),
    ensures
        repair_of(n, run(n, d), m) == repair_of(n, run(n, f), m),
{
    let s = run(n, d);
    let t = run(n, f);
    lemma_in_place(n, w, d);
    lemma_in_place(n, w, f);
    lemma_path_cost(n, RepairCosts { insert: 1, delete: 1, substitute: 1 }, d);
    lemma_path_cost(n, RepairCosts { insert: 1, delete: 1, substitute: 1 }, f);
    let k = d.len() as int;
    assert forall|i: int| 0 <= i < s.len() && #[trigger] s[i] is Keep implies t[i] == s[i] by {
        let o = s[i]->Keep_0;
        lemma_rank_place(repairs_of(n, d), repairs_of(n, f), k, o as int);
        assert(!touched(repairs_of(n, f), k, o as int));
        let j = choose|j: int| 0 <= j < t.len() && t[j] == Slot::Keep((o as int) as usize);
        assert(t[j] is Keep);
        assert(j == i);
    }
    assert forall|i: int| 0 <= i < s.len() && #[trigger] t[i] is Keep implies t[i] == s[i] by {
        let o = t[i]->Keep_0;
        lemma_rank_place(repairs_of(n, d), repairs_of(n, f), k, o as int);
        assert(!touched(repairs_of(n, d), k, o as int));
        let j = choose|j: int| 0 <= j < s.len() && s[j] == Slot::Keep((o as int) as usize);
        assert(s[j] is Keep);
        assert(j == i);
    }
    if let Move::Ins(g, u) = m {
        lemma_next_same(n, s, t, g);
    }
}

// ---- One more step -----------------------------------------------------

/// The first `k` repairs have the same ranks.
pub open spec fn ranks_agree(x: Seq<Repair>, y: Seq<Repair>, k: int) -> bool {
    forall|i: int| 0 <= i < k ==> repair_order(#[trigger] x[i]) == repair_order(y[i])
}

proof fn lemma_rank_cost(c: RepairCosts, x: Seq<Repair>, y: Seq<Repair>, k: int)
    requires
        0 <= k <= x.len(),
        k <= y.len(),
        ranks_agree(x, y, k),
    ensures
        sum_upto(c, x, k) == sum_upto(c, y, k),
    decreases k,
{
    if k > 0 {
        lemma_rank_cost(c, x, y, k - 1);
        assert(repair_order(x[k - 1]) == repair_order(y[k - 1]));
    }
}

proof fn lemma_sum_grows(c: RepairCosts, x: Seq<Repair>, k: int, j: int)
    requires
        c.positive(),
        0 <= k < j <= x.len(),
    ensures
        sum_upto(c, x, k) < sum_upto(c, x, j),
    decreases j,
{
    if k < j - 1 {
        lemma_sum_grows(c, x, k, j - 1);
    }
}

proof fn lemma_push_order(x: Seq<Repair>, y: Seq<Repair>, a: Repair, b: Repair, k: int)
    requires
        0 <= k <= x.len(),
        k <= y.len(),
        ranks_agree(x, y, k),
        !repairs_less(x, y, k),
        y.len() < x.len() ==> !ranks_agree(x, y, y.len() as int),
        x.len() == y.len() && ranks_agree(x, y, x.len() as int) ==> a == b,
    ensures
        !repairs_less(x.push(a), y.push(b), k),
    decreases x.len() - k,
{
    let u = x.push(a);
    let v = y.push(b);
    if k < x.len() && k < y.len() {
        assert(u[k] == x[k] && v[k] == y[k]);
        if repair_order(x[k]) == repair_order(y[k]) {
            lemma_push_order(x, y, a, b, k + 1);
        }
    } else if k == x.len() && k == y.len() {
        assert(u[k] == a && v[k] == b);
        assert(!repairs_less(u, v, k + 1));
    }
}

proof fn lemma_deleted_push(n: int, p: Seq<Move>, m: Move)
    ensures
        repairs_of(n, p.push(m)) == repairs_of(n, p).push(repair_of(n, run(n, p), m)),
        deleted(n, p.push(m)) == deleted(n, p) + (if m is Del {
            1int
        } else {
            0
        }),
        repairs_of(n, p).len() == p.len(),
{
    assert(p.push(m).drop_last() =~= p);
    lemma_path_cost(n, RepairCosts { insert: 1, delete: 1, substitute: 1 }, p);
    let rs = repairs_of(n, p);
    let r = repair_of(n, run(n, p), m);
    lemma_deletions_prefix(rs.push(r), rs, p.len() as int);
    assert(rs.push(r)[p.len() as int] == r);
}

proof fn lemma_deletions_prefix(x: Seq<Repair>, y: Seq<Repair>, k: int)
    requires
        0 <= k <= x.len(),
        k <= y.len(),
        forall|i: int| 0 <= i < k ==> x[i] == y[i],
    ensures
        deletions_upto(x, k) == deletions_upto(y, k),
    decreases k,
{
    if k > 0 {
        lemma_deletions_prefix(x, y, k - 1);
    }
}

/// The same step keeps the order of streams that render alike.
proof fn lemma_step_upto(
    n: int,
    w: Option<(usize, usize)>,
    c: RepairCosts,
    d: Seq<Move>,
    f: Seq<Move>,
    m: Move,
)
    requires
        0 <= n <= usize::MAX,
        c.positive(),
        legal(n, w, d),
        legal(n, w, f),
        run(n, d).len() == run(n, f).len(),
        allowed(n, w, run(n, d), m),
        allowed(n, w, run(n, f), m),
        upto(n, c, d, f),
    ensures
        upto(n, c, d.push(m), f.push(m)),
{
    let x = repairs_of(n, f);
    let y = repairs_of(n, d);
    lemma_path_cost(n, c, d);
    lemma_path_cost(n, c, f);
    lemma_deleted_push(n, d, m);
    lemma_deleted_push(n, f, m);
    assert(d.push(m).drop_last() =~= d);
    assert(f.push(m).drop_last() =~= f);
    if path_cost(c, d) == path_cost(c, f) && deleted(n, d) == deleted(n, f) {
        if y.len() < x.len() && ranks_agree(x, y, y.len() as int) {
            lemma_rank_cost(c, x, y, y.len() as int);
            lemma_sum_grows(c, x, y.len() as int, x.len() as int);
        }
        if x.len() == y.len() && ranks_agree(x, y, x.len() as int) {
            assert forall|i: int| 0 <= i < d.len() implies repair_order(
                #[trigger] repairs_of(n, d)[i],
            ) == repair_order(repairs_of(n, f)[i]) by {
                assert(repair_order(x[i]) == repair_order(y[i]));
            }
            lemma_same_repair(n, w, d, f, m);
        }
        lemma_push_order(
            x,
            y,
            repair_of(n, run(n, f), m),
            repair_of(n, run(n, d), m),
            0,
        );
    }
}

/// Neither list before the other: they have the same ranks.
proof fn lemma_neither_less(x: Seq<Repair>, y: Seq<Repair>, k: int)
    requires
        0 <= k <= x.len(),
        k <= y.len(),
        ranks_agree(x, y, k),
        !repairs_less(x, y, k),
        !repairs_less(y, x, k),
    ensures
        x.len() == y.len(),
        ranks_agree(x, y, x.len() as int),
    decreases x.len() - k,
{
    if k < x.len() && k < y.len() {
        assert(repair_order(x[k]) == repair_order(y[k]));
        lemma_neither_less(x, y, k + 1);
    }
}

/// Repairs insert and substitute tokens of the alphabet.
proof fn lemma_repairs_alphabet(n: int, w: Option<(usize, usize)>, p: Seq<Move>)
    requires
        legal(n, w, p),
    ensures
        forall|i: int|
            0 <= i < repairs_of(n, p).len() ==> match #[trigger] repairs_of(n, p)[i] {
                Repair::Insert { at, tok } => in_alphabet(tok),
                Repair::Substitute { at, to } => in_alphabet(to),
                Repair::Delete { at } => true,
            },
    decreases p.len(),
{
    if p.len() > 0 {
        lemma_repairs_alphabet(n, w, p.drop_last());
    }
}

/// Of two sequences of steps neither of which is preferred, the repairs are
/// the same.
pub proof fn lemma_same_rank(
    n: int,
    w: Option<(usize, usize)>,
    c: RepairCosts,
    p: Seq<Move>,
    q: Seq<Move>,
)
    requires
        legal(n, w, p),
        legal(n, w, q),
        upto(n, c, p, q),
        upto(n, c, q, p),
    ensures
        repairs_of(n, p) == repairs_of(n, q),
        path_cost(c, p) == path_cost(c, q),
{
    let x = repairs_of(n, p);
    let y = repairs_of(n, q);
    lemma_repairs_alphabet(n, w, p);
    lemma_repairs_alphabet(n, w, q);
    lemma_neither_less(x, y, 0);
    assert forall|i: int| 0 <= i < x.len() implies x[i] == y[i] by {
        assert(repair_order(x[i]) == repair_order(y[i]));
    }
    assert(x =~= y);
}

// ---- The search --------------------------------------------------------

/// Among the streams at the end of `paths`, one renders as `txt` and is not
/// after `q`.
pub open spec fn found(
    s: Seq<u8>,
    n: int,
    c: RepairCosts,
    paths: Seq<Seq<Move>>,
    txt: Seq<u8>,
    q: Seq<Move>,
) -> bool {
    exists|i: int|
        0 <= i < paths.len() && rendered(s, run(n, #[trigger] paths[i])) == txt && upto(
            n,
            c,
            paths[i],
            q,
        )
}

/// One of the streams at the end of `paths` is not after `q`.
pub open spec fn pending(n: int, c: RepairCosts, paths: Seq<Seq<Move>>, q: Seq<Move>) -> bool {
    exists|i: int| 0 <= i < paths.len() && upto(n, c, #[trigger] paths[i], q)
}

/// What a step from an expanded stream leads to is expanded or waiting, by a
/// path that is not after it.
pub open spec fn order_ok(
    s: Seq<u8>,
    n: int,
    w: Option<(usize, usize)>,
    c: RepairCosts,
    max: int,
    dn: Seq<Seq<Move>>,
    fr: Seq<Seq<Move>>,
) -> bool {
    &&& found(s, n, c, dn, rendered(s, start(n)), Seq::empty()) || found(
        s,
        n,
        c,
        fr,
        rendered(s, start(n)),
        Seq::empty(),
    )
    &&& forall|i: int, m: Move|
        0 <= i < dn.len() && #[trigger] allowed(n, w, run(n, dn[i]), m) && path_cost(c, dn[i])
            + move_cost(c, m) <= max ==> {
            let txt = rendered(s, moved(run(n, dn[i]), m));
            found(s, n, c, dn, txt, dn[i].push(m)) || found(s, n, c, fr, txt, dn[i].push(m))
        }
}

pub proof fn lemma_found_more(
    s: Seq<u8>,
    n: int,
    c: RepairCosts,
    paths: Seq<Seq<Move>>,
    txt: Seq<u8>,
    q: Seq<Move>,
    r: Seq<Move>,
)
    requires
        found(s, n, c, paths, txt, q),
        upto(n, c, q, r),
    ensures
        found(s, n, c, paths, txt, r),
        pending(n, c, paths, r),
{
    let i = choose|i: int|
        0 <= i < paths.len() && rendered(s, run(n, #[trigger] paths[i])) == txt && upto(
            n,
            c,
            paths[i],
            q,
        );
    lemma_upto(n, c, paths[i], q, r);
    assert(upto(n, c, paths[i], r));
}

/// Every stream that can be reached within the bound has been expanded by a
/// path that is not after its own, or such a path is still waiting.
#[verifier::spinoff_prover]
#[verifier::rlimit(100)]
pub proof fn lemma_order(
    s: Seq<u8>,
    n: int,
    w: Option<(usize, usize)>,
    c: RepairCosts,
    max: int,
    dn: Seq<Seq<Move>>,
    fr: Seq<Seq<Move>>,
    path: Seq<Move>,
)
    requires
        n == lex(s).len() - 1,
        0 <= n <= usize::MAX,
        c.positive(),
        search_ok(s, n, w, c, max, dn, fr),
        order_ok(s, n, w, c, max, dn, fr),
        legal(n, w, path),
        path_cost(c, path) <= max,
    ensures
        found(s, n, c, dn, rendered(s, run(n, path)), path) || pending(n, c, fr, path),
    decreases path.len(),
{
    let txt = rendered(s, run(n, path));
    if path.len() == 0 {
        assert(path =~= Seq::<Move>::empty());
        lemma_upto_self(n, c, path);
        if found(s, n, c, fr, txt, path) {
            lemma_found_more(s, n, c, fr, txt, path, path);
        }
    } else {
        let front = path.drop_last();
        let t = run(n, front);
        let m = path.last();
        assert(path =~= front.push(m));
        lemma_path_cost(n, c, front);
        lemma_order(s, n, w, c, max, dn, fr, front);
        if pending(n, c, fr, front) {
            let i = choose|i: int| 0 <= i < fr.len() && upto(n, c, #[trigger] fr[i], front);
            lemma_upto(n, c, fr[i], front, front);
            lemma_upto(n, c, fr[i], path, path);
            assert(upto(n, c, fr[i], path));
        } else {
            let e = choose|i: int|
                0 <= i < dn.len() && rendered(s, run(n, #[trigger] dn[i])) == rendered(s, t) && upto(
                    n,
                    c,
                    dn[i],
                    front,
                );
            let d = dn[e];
            let x = run(n, d);
            lemma_upto(n, c, d, front, front);
            lemma_shape(n, w, front);
            lemma_shape(n, w, d);
            lemma_texts(s, t);
            lemma_texts(s, x);
            lemma_joined_injective(texts(s, x), texts(s, t));
            assert(x.len() == texts(s, x).len() && t.len() == texts(s, t).len());
            lemma_alike(s, x, t, m);
            if keeps(x, m) {
                lemma_transfer(n, w, x, t, m);
                lemma_step_upto(n, w, c, d, front, m);
                assert(allowed(n, w, run(n, dn[e]), m));
                if found(s, n, c, dn, txt, d.push(m)) {
                    lemma_found_more(s, n, c, dn, txt, d.push(m), path);
                } else {
                    lemma_found_more(s, n, c, fr, txt, d.push(m), path);
                }
            } else {
                let r = match m {
                    Move::Del(i) => lemma_remove_synth(n, w, c, d, i),
                    Move::Sub(i, k) => lemma_change_synth(n, w, c, d, i, k),
                    Move::Ins(g, k) => d,
                };
                assert(run(n, r) == moved(x, m));
                assert(path_cost(c, r) < path_cost(c, path));
                lemma_search(s, n, w, c, max, dn, fr, r);
                if seen(s, n, c, dn, txt, path_cost(c, r)) {
                    let i = choose|i: int|
                        0 <= i < dn.len() && rendered(s, run(n, #[trigger] dn[i])) == txt && path_cost(
                            c,
                            dn[i],
                        ) <= path_cost(c, r);
                    lemma_upto(n, c, dn[i], path, path);
                    assert(upto(n, c, dn[i], path));
                } else {
                    assert(waiting(c, fr, path_cost(c, r)));
                    let i = choose|i: int|
                        0 <= i < fr.len() && path_cost(c, #[trigger] fr[i]) <= path_cost(c, r);
                    lemma_upto(n, c, fr[i], path, path);
                    assert(upto(n, c, fr[i], path));
                }
            }
        }
    }
}

/// A stream taken from the waiting ones and expanded, or rendered like an
/// expanded one that is not after it: the search stays complete.
pub proof fn lemma_order_step(
    s: Seq<u8>,
    n: int,
    w: Option<(usize, usize)>,
    c: RepairCosts,
    max: int,
    dn: Seq<Seq<Move>>,
    dn2: Seq<Seq<Move>>,
    fr: Seq<Seq<Move>>,
    fr2: Seq<Seq<Move>>,
    x: Seq<Move>,
)
    requires
        order_ok(s, n, w, c, max, dn, fr),
        dn2 == dn || dn2 == dn.push(x),
        found(s, n, c, dn2, rendered(s, run(n, x)), x),
        forall|i: int| 0 <= i < fr.len() ==> #[trigger] fr[i] == x || fr2.contains(fr[i]),
        dn2 != dn ==> forall|m: Move|
            #[trigger] allowed(n, w, run(n, x), m) && path_cost(c, x) + move_cost(c, m) <= max
                ==> fr2.contains(x.push(m)),
    ensures
        order_ok(s, n, w, c, max, dn2, fr2),
{
    assert forall|txt: Seq<u8>, q: Seq<Move>|
        found(s, n, c, dn, txt, q) || found(s, n, c, fr, txt, q) implies #[trigger] found(
        s,
        n,
        c,
        dn2,
        txt,
        q,
    ) || found(s, n, c, fr2, txt, q) by {
        if found(s, n, c, dn, txt, q) {
            let i = choose|i: int|
                0 <= i < dn.len() && rendered(s, run(n, #[trigger] dn[i])) == txt && upto(
                    n,
                    c,
                    dn[i],
                    q,
                );
            assert(dn2[i] == dn[i]);
        } else {
            let i = choose|i: int|
                0 <= i < fr.len() && rendered(s, run(n, #[trigger] fr[i])) == txt && upto(
                    n,
                    c,
                    fr[i],
                    q,
                );
            if fr[i] == x {
                lemma_found_more(s, n, c, dn2, rendered(s, run(n, x)), x, q);
            } else {
                assert(fr2.contains(fr[i]));
                let j = choose|j: int| 0 <= j < fr2.len() && fr2[j] == fr[i];
                assert(rendered(s, run(n, fr2[j])) == txt);
            }
        }
    }
    assert(found(s, n, c, dn2, rendered(s, start(n)), Seq::empty()) || found(
        s,
        n,
        c,
        fr2,
        rendered(s, start(n)),
        Seq::empty(),
    ));
    assert forall|i: int, m: Move|
        0 <= i < dn2.len() && #[trigger] allowed(n, w, run(n, dn2[i]), m) && path_cost(c, dn2[i])
            + move_cost(c, m) <= max implies {
        let txt = rendered(s, moved(run(n, dn2[i]), m));
        found(s, n, c, dn2, txt, dn2[i].push(m)) || found(s, n, c, fr2, txt, dn2[i].push(m))
    } by {
        let txt = rendered(s, moved(run(n, dn2[i]), m));
        if i < dn.len() {
            assert(dn2[i] == dn[i]);
            assert(allowed(n, w, run(n, dn[i]), m));
            assert(found(s, n, c, dn, txt, dn[i].push(m)) || found(s, n, c, fr, txt, dn[i].push(m)));
            assert(found(s, n, c, dn2, txt, dn[i].push(m)) || found(s, n, c, fr2, txt, dn[i].push(m)));
        } else {
            assert(dn2[i] == x);
            let y = x.push(m);
            assert(y.drop_last() =~= x);
            assert(fr2.contains(y));
            let j = choose|j: int| 0 <= j < fr2.len() && fr2[j] == y;
            lemma_upto_self(n, c, y);
            assert(rendered(s, run(n, fr2[j])) == txt && upto(n, c, fr2[j], y));
        }
    }
}

} // verus!
