//! Sources, places and numbers for measurements are fit for it.

use vstd::prelude::*;

use crate::runtime::bench_support::{nested_text, places_of, xorshift};

verus! {

/// How many of the first `n` characters open a bracket, less those that close one.
pub open spec fn nesting(s: Seq<char>, open: char, close: char, n: int) -> int
    decreases n,
{
    if n <= 0 {
        0
    } else {
        nesting(s, open, close, n - 1) + (if s[n - 1] == open {
            1int
        } else if s[n - 1] == close {
            -1int
        } else {
            0int
        })
    }
}

/// A text holds no bracket.
pub open spec fn bare(s: Seq<char>, open: char, close: char) -> bool {
    forall|i: int| 0 <= i < s.len() ==> #[trigger] s[i] != open && s[i] != close
}

/// A nested expression is one pair of brackets around all of it, and never more are closed
/// than opened; each level doubles its atoms.
pub proof fn law_nested(d: nat, atom: Seq<char>, infix: Seq<char>, open: char, close: char)
    requires
        open != close,
        bare(atom, open, close),
        bare(infix, open, close),
    ensures
        ({
            let x = nested_text(d, atom, infix, seq![open], seq![close]);
            let y = nested_text(d + 1, atom, infix, seq![open], seq![close]);
            let n = x.len() as int;
            &&& nesting(x, open, close, n) == 0
            &&& forall|i: int|
                d > 0 && 0 < i < n ==> #[trigger] nesting(x, open, close, i) > 0
            &&& d == 0 ==> x == atom
            &&& d > 0 ==> x[0] == open && x.last() == close
            &&& y.len() == 2 * n + infix.len() + 2
            &&& y.subrange(1, n + 1) == x
            &&& y.subrange(n + 1, n + 1 + infix.len()) == infix
        }),
    decreases d,
{
    let (o, c) = (seq![open], seq![close]);
    let x = nested_text(d, atom, infix, o, c);
    let y = nested_text(d + 1, atom, infix, o, c);
    let n = x.len() as int;
    assert(y == o + x + infix + x + c);
    assert(y.subrange(1, n + 1) =~= x);
    assert(y.subrange(n + 1, n + 1 + infix.len()) =~= infix);
    if d == 0 {
        lemma_bare(atom, open, close, n);
    } else {
        law_nested((d - 1) as nat, atom, infix, open, close);
        let w = nested_text((d - 1) as nat, atom, infix, o, c);
        assert(x == o + w + infix + w + c);
        assert forall|i: int| 0 <= i <= w.len() implies #[trigger] nesting(w, open, close, i)
            >= 0 by {
            if d == 1 {
                lemma_bare(atom, open, close, i);
            }
        }
        lemma_level(w, infix, open, close, n);
        assert forall|i: int| 0 < i < n implies #[trigger] nesting(x, open, close, i) > 0 by {
            lemma_level(w, infix, open, close, i);
        }
    }
}

/// Inside the brackets around two texts that close what they open, and a bare one
/// between them, a bracket is open.
proof fn lemma_level(w: Seq<char>, infix: Seq<char>, open: char, close: char, i: int)
    requires
        open != close,
        bare(infix, open, close),
        nesting(w, open, close, w.len() as int) == 0,
        forall|j: int| 0 <= j <= w.len() ==> #[trigger] nesting(w, open, close, j) >= 0,
        0 < i <= 2 * w.len() + infix.len() + 2,
    ensures
        ({
            let x = seq![open] + w + infix + w + seq![close];
            let n = x.len() as int;
            &&& i < n ==> nesting(x, open, close, i) > 0
            &&& i == n ==> nesting(x, open, close, i) == 0
        }),
{
    let x = seq![open] + w + infix + w + seq![close];
    let k = w.len() as int;
    let m = infix.len() as int;
    reveal_with_fuel(nesting, 2);
    assert(x[0] == open);
    assert(nesting(x, open, close, 1) == 1);
    assert forall|j: int| 0 <= j < k implies x[1 + j] == #[trigger] w[j] by {}
    assert forall|j: int| 0 <= j < m implies x[1 + k + j] == #[trigger] infix[j] by {}
    assert forall|j: int| 0 <= j < k implies x[1 + k + m + j] == #[trigger] w[j] by {}
    lemma_shifted(x, w, open, close, 1, k);
    lemma_shifted(x, infix, open, close, 1 + k, m);
    lemma_bare(infix, open, close, m);
    lemma_shifted(x, w, open, close, 1 + k + m, k);
    if i <= 1 + k {
        lemma_shifted(x, w, open, close, 1, i - 1);
        assert(nesting(w, open, close, i - 1) >= 0);
    } else if i <= 1 + k + m {
        lemma_shifted(x, infix, open, close, 1 + k, i - 1 - k);
        lemma_bare(infix, open, close, i - 1 - k);
    } else if i <= 1 + k + m + k {
        lemma_shifted(x, w, open, close, 1 + k + m, i - 1 - k - m);
        assert(nesting(w, open, close, i - 1 - k - m) >= 0);
    } else {
        assert(x[i - 1] == close);
    }
}

proof fn lemma_bare(s: Seq<char>, open: char, close: char, n: int)
    requires
        bare(s, open, close),
        0 <= n <= s.len(),
    ensures
        nesting(s, open, close, n) == 0,
    decreases n,
{
    if n > 0 {
        lemma_bare(s, open, close, n - 1);
        assert(s[n - 1] != open);
    }
}

proof fn lemma_shifted(x: Seq<char>, w: Seq<char>, open: char, close: char, at: int, i: int)
    requires
        0 <= at,
        0 <= i <= w.len(),
        at + w.len() <= x.len(),
        forall|j: int| 0 <= j < w.len() ==> x[at + j] == #[trigger] w[j],
    ensures
        nesting(x, open, close, at + i) == nesting(x, open, close, at) + nesting(w, open, close, i),
    decreases i,
{
    if i > 0 {
        lemma_shifted(x, w, open, close, at, i - 1);
        assert(x[at + (i - 1)] == w[i - 1]);
    }
}

/// The places of a byte are all where it stands, in order.
pub proof fn law_places(s: Seq<u8>, b: u8, n: int)
    requires
        0 <= n <= s.len(),
    ensures
        ({
            let ps = places_of(s, b, n);
            &&& forall|j: int|
                0 <= j < ps.len() ==> 0 <= #[trigger] ps[j] < n && s[ps[j]] == b
            &&& forall|j: int, k: int| 0 <= j < k < ps.len() ==> #[trigger] ps[j] < #[trigger] ps[k]
            &&& forall|i: int| 0 <= i < n && s[i] == b ==> #[trigger] ps.contains(i)
        }),
    decreases n,
{
    if n > 0 {
        law_places(s, b, n - 1);
        let ps = places_of(s, b, n - 1);
        let qs = places_of(s, b, n);
        assert forall|i: int| 0 <= i < n && s[i] == b implies #[trigger] qs.contains(i) by {
            if i == n - 1 {
                assert(qs[ps.len() as int] == i);
            } else {
                assert(ps.contains(i));
                let j = choose|j: int| 0 <= j < ps.len() && ps[j] == i;
                assert(qs[j] == i);
            }
        }
    }
}

/// The number before `y`.
pub open spec fn step_back(y: u64) -> u64 {
    let b = y ^ (y << 17) ^ (y << 34) ^ (y << 51);
    let a = b ^ (b >> 7) ^ (b >> 14) ^ (b >> 21) ^ (b >> 28) ^ (b >> 35) ^ (b >> 42) ^ (b >> 49) ^ (b
        >> 56) ^ (b >> 63);
    a ^ (a << 13) ^ (a << 26) ^ (a << 39) ^ (a << 52)
}

/// Every number comes after one number only, which can be told from it, and zero only
/// after itself: the generator does not run dry.
pub proof fn law_numbers_reversible(x: u64)
    ensures
        step_back(xorshift(x)) == x,
        xorshift(x) == 0 <==> x == 0,
{
    let a = x ^ (x << 13);
    let b = a ^ (a >> 7);
    let y = b ^ (b << 17);
    assert(a ^ (a << 13) ^ (a << 26) ^ (a << 39) ^ (a << 52) == x) by (bit_vector)
        requires
            a == x ^ (x << 13),
    ;
    assert(b ^ (b >> 7) ^ (b >> 14) ^ (b >> 21) ^ (b >> 28) ^ (b >> 35) ^ (b >> 42) ^ (b >> 49) ^ (b
        >> 56) ^ (b >> 63) == a) by (bit_vector)
        requires
            b == a ^ (a >> 7),
    ;
    assert(y ^ (y << 17) ^ (y << 34) ^ (y << 51) == b) by (bit_vector)
        requires
            y == b ^ (b << 17),
    ;
    assert(0u64 ^ (0u64 << 13) == 0 && 0u64 ^ (0u64 >> 7) == 0 && 0u64 ^ (0u64 << 17) == 0)
        by (bit_vector);
    assert(step_back(0) == 0) by {
        assert(0u64 ^ (0u64 << 17) ^ (0u64 << 34) ^ (0u64 << 51) == 0) by (bit_vector);
        assert(0u64 ^ (0u64 >> 7) ^ (0u64 >> 14) ^ (0u64 >> 21) ^ (0u64 >> 28) ^ (0u64 >> 35) ^ (
        0u64 >> 42) ^ (0u64 >> 49) ^ (0u64 >> 56) ^ (0u64 >> 63) == 0) by (bit_vector);
        assert(0u64 ^ (0u64 << 13) ^ (0u64 << 26) ^ (0u64 << 39) ^ (0u64 << 52) == 0)
            by (bit_vector);
    }
}

} // verus!
