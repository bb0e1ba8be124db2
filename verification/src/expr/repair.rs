//! Repairs of a token stream: the operations, their costs, and the streams
//! that sequences of them lead to.

use vstd::prelude::*;

use crate::ascii::{COLON, DIGIT_0, LOWER_X, PLUS, RBRACKET, RPAREN, SPACE};
use crate::expr::lexer::{lex, TokenKind};

verus! {

/// Repair cost.
pub type Cost = u32;

/// Larger than every cost of interest; sums are capped here.
pub const INFINITY: Cost = 2147483647;

/// A repair of a token stream. `at` is an index into the stream before any
/// repair.
#[derive(Debug, Clone, Copy, PartialEq, Eq, Structural)]
pub enum Repair {
    /// A new token before the token at `at`.
    Insert { at: usize, tok: TokenKind },
    /// The token at `at` is dropped.
    Delete { at: usize },
    /// The token at `at` becomes one of kind `to`.
    Substitute { at: usize, to: TokenKind },
}

/// Cost of each kind of repair.
#[derive(Debug, Clone, Copy)]
pub struct RepairCosts {
    pub insert: Cost,
    pub delete: Cost,
    pub substitute: Cost,
}

impl Default for RepairCosts {
    fn default() -> (r: RepairCosts)
        ensures
            r.insert == 1,
            r.delete == 1,
            r.substitute == 1,
    {
        RepairCosts { insert: 1, delete: 1, substitute: 1 }
    }
}

/// Sum of the costs of the first `k` repairs.
pub open spec fn sum_upto(c: RepairCosts, rs: Seq<Repair>, k: int) -> int
    decreases k,
{
    if 0 < k <= rs.len() {
        sum_upto(c, rs, k - 1) + c.of(rs[k - 1])
    } else {
        0
    }
}

/// Sum of the costs of some repairs.
pub open spec fn sum_of(c: RepairCosts, rs: Seq<Repair>) -> int {
    sum_upto(c, rs, rs.len() as int)
}

/// A sum of costs, capped.
pub open spec fn capped_cost(n: int) -> int {
    if n <= INFINITY {
        n
    } else {
        INFINITY as int
    }
}

proof fn lemma_sum_nonneg(c: RepairCosts, rs: Seq<Repair>, k: int)
    ensures
        sum_upto(c, rs, k) >= 0,
    decreases k,
{
    if 0 < k <= rs.len() {
        lemma_sum_nonneg(c, rs, k - 1);
    }
}

impl RepairCosts {
    /// Cost of a repair.
    pub open spec fn of(&self, r: Repair) -> Cost {
        match r {
            Repair::Insert { at, tok } => self.insert,
            Repair::Delete { at } => self.delete,
            Repair::Substitute { at, to } => self.substitute,
        }
    }

    /// No repair is free.
    pub open spec fn positive(&self) -> bool {
        self.insert >= 1 && self.delete >= 1 && self.substitute >= 1
    }

    /// Putting in a token costs something, be it in place of another or not.
    pub open spec fn paid(&self) -> bool {
        self.insert >= 1 && self.substitute >= 1
    }

    pub fn cost(&self, r: &Repair) -> (c: Cost)
        ensures
            c == self.of(*r),
    {
        match r {
            Repair::Insert { at: _, tok: _ } => self.insert,
            Repair::Delete { at: _ } => self.delete,
            Repair::Substitute { at: _, to: _ } => self.substitute,
        }
    }

    /// Total cost of some repairs, capped at `INFINITY`.
    pub fn total(&self, repairs: &[Repair]) -> (c: Cost)
        ensures
            c == capped_cost(sum_of(*self, repairs@)),
    {
        let mut acc: Cost = 0;
        let mut i: usize = 0;
        while i < repairs.len()
            invariant
                i <= repairs@.len(),
                acc == capped_cost(sum_upto(*self, repairs@, i as int)),
            decreases repairs@.len() - i,
        {
            proof {
                lemma_sum_nonneg(*self, repairs@, i as int);
            }
            let next: Cost = acc.saturating_add(self.cost(&repairs[i]));
            acc = if next < INFINITY {
                next
            } else {
                INFINITY
            };
            i = i + 1;
        }
        acc
    }
}

/// The token kinds a repair may insert or substitute.
pub open spec fn in_alphabet(k: TokenKind) -> bool {
    ||| k == TokenKind::Int
    ||| k == TokenKind::Ident
    ||| k == TokenKind::Plus
    ||| k == TokenKind::RParen
    ||| k == TokenKind::RBracket
    ||| k == TokenKind::Colon
}

/// A place in a candidate stream: an original token or a synthesized one.
#[derive(Debug, Clone, Copy, PartialEq, Eq, Structural)]
pub enum Slot {
    Keep(usize),
    Synth(TokenKind),
}

/// The text of a synthesized token.
pub open spec fn canon_bytes(k: TokenKind) -> Seq<u8> {
    match k {
        TokenKind::Int => seq![DIGIT_0],
        TokenKind::Ident => seq![LOWER_X],
        TokenKind::Plus => seq![PLUS],
        TokenKind::RParen => seq![RPAREN],
        TokenKind::RBracket => seq![RBRACKET],
        _ => seq![COLON],
    }
}

/// The text of a slot of a stream over source `s`.
pub open spec fn slot_text(s: Seq<u8>, x: Slot) -> Seq<u8> {
    match x {
        Slot::Keep(i) => s.subrange(lex(s)[i as int].start, lex(s)[i as int].end),
        Slot::Synth(k) => canon_bytes(k),
    }
}

pub open spec fn texts(s: Seq<u8>, slots: Seq<Slot>) -> Seq<Seq<u8>> {
    Seq::new(slots.len(), |i: int| slot_text(s, slots[i]))
}

/// The first `k` texts, separated by spaces.
pub open spec fn joined(ts: Seq<Seq<u8>>, k: int) -> Seq<u8>
    decreases k,
{
    if 0 < k <= ts.len() {
        if k == 1 {
            ts[0]
        } else {
            joined(ts, k - 1) + seq![SPACE] + ts[k - 1]
        }
    } else {
        Seq::empty()
    }
}

/// A candidate stream as source text.
pub open spec fn rendered(s: Seq<u8>, slots: Seq<Slot>) -> Seq<u8> {
    joined(texts(s, slots), slots.len() as int)
}

/// Non-empty and without spaces.
pub open spec fn word(t: Seq<u8>) -> bool {
    t.len() >= 1 && forall|i: int| 0 <= i < t.len() ==> #[trigger] t[i] != SPACE
}

pub open spec fn words(ts: Seq<Seq<u8>>) -> bool {
    forall|i: int| 0 <= i < ts.len() ==> word(#[trigger] ts[i])
}

proof fn lemma_joined_prefix(ts: Seq<Seq<u8>>, us: Seq<Seq<u8>>, k: int)
    requires
        0 <= k <= ts.len(),
        k <= us.len(),
        forall|i: int| 0 <= i < k ==> ts[i] == us[i],
    ensures
        joined(ts, k) == joined(us, k),
    decreases k,
{
    if k > 0 {
        lemma_joined_prefix(ts, us, k - 1);
    }
}

/// Words can be told apart after joining.
pub proof fn lemma_joined_injective(ts: Seq<Seq<u8>>, us: Seq<Seq<u8>>)
    requires
        words(ts),
        words(us),
        joined(ts, ts.len() as int) == joined(us, us.len() as int),
    ensures
        ts == us,
    decreases ts.len(),
{
    let n = ts.len() as int;
    let m = us.len() as int;
    let x = joined(ts, n);
    let y = joined(us, m);
    if n == 0 || m == 0 {
        lemma_joined_len(ts, n);
        lemma_joined_len(us, m);
        assert(ts =~= us);
    } else {
        let t = ts[n - 1];
        let u = us[m - 1];
        assert(word(t) && word(u));
        assert(x.len() >= t.len());
        assert(y.len() >= u.len());
        assert forall|i: int| 0 <= i < t.len() implies #[trigger] t[i] == x[x.len() - t.len() + i] by {}
        assert forall|i: int| 0 <= i < u.len() implies #[trigger] u[i] == y[y.len() - u.len() + i] by {}
        lemma_joined_last(ts, us);
        lemma_joined_last(us, ts);
        assert(t =~= u);
        if n == 1 {
            assert(y.len() == u.len());
            assert(m == 1);
            assert(ts =~= us);
        } else {
            assert(m > 1);
            let ts2 = ts.drop_last();
            let us2 = us.drop_last();
            lemma_joined_prefix(ts, ts2, n - 1);
            lemma_joined_prefix(us, us2, m - 1);
            assert(joined(ts, n - 1) =~= x.take(x.len() - t.len() - 1));
            assert(joined(us, m - 1) =~= y.take(y.len() - u.len() - 1));
            lemma_joined_injective(ts2, us2);
            assert(ts =~= ts2.push(t));
            assert(us =~= us2.push(u));
        }
    }
}

proof fn lemma_joined_len(ts: Seq<Seq<u8>>, n: int)
    requires
        words(ts),
        n == ts.len(),
    ensures
        n > 0 ==> joined(ts, n).len() > 0,
{
    if n > 0 {
        assert(word(ts[n - 1]));
    }
}

/// The last words of equal joins are equally long.
proof fn lemma_joined_last(ts: Seq<Seq<u8>>, us: Seq<Seq<u8>>)
    requires
        words(ts),
        words(us),
        ts.len() > 0,
        us.len() > 0,
        joined(ts, ts.len() as int) == joined(us, us.len() as int),
    ensures
        ts.last().len() >= us.last().len(),
{
    let n = ts.len() as int;
    let m = us.len() as int;
    let x = joined(ts, n);
    let t = ts[n - 1];
    let u = us[m - 1];
    assert(word(u));
    assert(x.len() >= u.len());
    if t.len() < u.len() {
        if n == 1 {
            assert(x.len() == t.len());
        } else {
            assert(x[x.len() - t.len() - 1] == SPACE);
            assert(u[u.len() - t.len() - 1] == x[x.len() - t.len() - 1]);
        }
    }
}

/// One repair step on a candidate stream: which slot it drops or replaces, or
/// which gap it fills.
pub ghost enum Move {
    Del(int),
    Sub(int, TokenKind),
    Ins(int, TokenKind),
}

/// The stream before any repair.
pub open spec fn start(n: int) -> Seq<Slot> {
    Seq::new(n as nat, |i: int| Slot::Keep(i as usize))
}

pub open spec fn moved(s: Seq<Slot>, m: Move) -> Seq<Slot> {
    match m {
        Move::Del(i) => s.remove(i),
        Move::Sub(i, k) => s.update(i, Slot::Synth(k)),
        Move::Ins(g, k) => s.insert(g, Slot::Synth(k)),
    }
}

/// Original index of the first kept token from slot `g` on; `n` if none.
pub open spec fn next_keep(s: Seq<Slot>, g: int, n: int) -> int
    decreases s.len() - g,
{
    if !(0 <= g < s.len()) {
        n
    } else {
        match s[g] {
            Slot::Keep(i) => i as int,
            Slot::Synth(k) => next_keep(s, g + 1, n),
        }
    }
}

/// Repairs may touch original token `i`.
pub open spec fn in_window(w: Option<(usize, usize)>, i: int) -> bool {
    w matches Some((lo, hi)) ==> lo <= i < hi
}

/// Repairs may insert before original token `i`.
pub open spec fn gap_in_window(w: Option<(usize, usize)>, i: int) -> bool {
    w matches Some((lo, hi)) ==> lo <= i <= hi
}

/// The step may be made on stream `s`.
pub open spec fn allowed(n: int, w: Option<(usize, usize)>, s: Seq<Slot>, m: Move) -> bool {
    match m {
        Move::Del(i) => 0 <= i < s.len() && (s[i] matches Slot::Keep(o) && in_window(w, o as int)),
        Move::Sub(i, k) => 0 <= i < s.len() && (s[i] matches Slot::Keep(o) && in_window(w, o as int))
            && in_alphabet(k),
        Move::Ins(g, k) => 0 <= g <= s.len() && gap_in_window(w, next_keep(s, g, n)) && in_alphabet(
            k,
        ),
    }
}

/// The stream that a sequence of steps leads to.
pub open spec fn run(n: int, path: Seq<Move>) -> Seq<Slot>
    decreases path.len(),
{
    if path.len() == 0 {
        start(n)
    } else {
        moved(run(n, path.drop_last()), path.last())
    }
}

/// Every step may be made where it is made.
pub open spec fn legal(n: int, w: Option<(usize, usize)>, path: Seq<Move>) -> bool
    decreases path.len(),
{
    path.len() > 0 ==> {
        &&& legal(n, w, path.drop_last())
        &&& allowed(n, w, run(n, path.drop_last()), path.last())
    }
}

/// A step as a repair of the original stream.
pub open spec fn repair_of(n: int, s: Seq<Slot>, m: Move) -> Repair {
    match m {
        Move::Del(i) => Repair::Delete { at: s[i]->Keep_0 },
        Move::Sub(i, k) => Repair::Substitute { at: s[i]->Keep_0, to: k },
        Move::Ins(g, k) => Repair::Insert { at: next_keep(s, g, n) as usize, tok: k },
    }
}

/// The repairs that a sequence of steps makes.
pub open spec fn repairs_of(n: int, path: Seq<Move>) -> Seq<Repair>
    decreases path.len(),
{
    if path.len() == 0 {
        Seq::empty()
    } else {
        repairs_of(n, path.drop_last()).push(
            repair_of(n, run(n, path.drop_last()), path.last()),
        )
    }
}

pub open spec fn move_cost(c: RepairCosts, m: Move) -> int {
    match m {
        Move::Del(i) => c.delete as int,
        Move::Sub(i, k) => c.substitute as int,
        Move::Ins(g, k) => c.insert as int,
    }
}

pub open spec fn path_cost(c: RepairCosts, path: Seq<Move>) -> int
    decreases path.len(),
{
    if path.len() == 0 {
        0
    } else {
        path_cost(c, path.drop_last()) + move_cost(c, path.last())
    }
}

/// The cost of a sequence of steps is that of its repairs.
pub proof fn lemma_path_cost(n: int, c: RepairCosts, path: Seq<Move>)
    ensures
        path_cost(c, path) == sum_of(c, repairs_of(n, path)),
        repairs_of(n, path).len() == path.len(),
        path_cost(c, path) >= 0,
    decreases path.len(),
{
    if path.len() > 0 {
        let rs = repairs_of(n, path.drop_last());
        let r = repair_of(n, run(n, path.drop_last()), path.last());
        lemma_path_cost(n, c, path.drop_last());
        lemma_sum_prefix(c, rs.push(r), rs, rs.len() as int);
    }
}

proof fn lemma_sum_prefix(c: RepairCosts, rs: Seq<Repair>, qs: Seq<Repair>, k: int)
    requires
        0 <= k <= rs.len(),
        k <= qs.len(),
        forall|i: int| 0 <= i < k ==> rs[i] == qs[i],
    ensures
        sum_upto(c, rs, k) == sum_upto(c, qs, k),
    decreases k,
{
    if k > 0 {
        lemma_sum_prefix(c, rs, qs, k - 1);
    }
}

} // verus!
