//! The algebra of repair costs: choosing the cheaper repair and adding up
//! repairs of disjoint regions.

use vstd::prelude::*;

verus! {

pub type Cost = u32;

/// More than any repair may cost. Two costs up to here add without overflow.
pub const INFINITY: Cost = 2147483647;

/// The sum of two costs, capped.
pub open spec fn sum_of(a: Cost, b: Cost) -> int {
    if a + b > INFINITY {
        INFINITY as int
    } else {
        a + b
    }
}

/// The cost of two repairs of disjoint regions.
pub fn add(a: Cost, b: Cost) -> (r: Cost)
    ensures
        r == sum_of(a, b),
{
    let s: Cost = a.saturating_add(b);
    if s > INFINITY {
        INFINITY
    } else {
        s
    }
}

/// The cheaper of two costs.
pub open spec fn cheaper(a: Cost, b: Cost) -> Cost {
    if a <= b {
        a
    } else {
        b
    }
}

/// The cheaper of two repairs.
pub fn min(a: Cost, b: Cost) -> (r: Cost)
    ensures
        r == cheaper(a, b),
{
    if a <= b {
        a
    } else {
        b
    }
}

#[derive(Debug, Clone, Copy, PartialEq, Eq, Structural)]
pub enum Repair {
    Insert,
    Delete,
    Substitute,
}

impl Repair {
    /// Every repair costs one.
    pub fn cost(self) -> (r: Cost)
        ensures
            r == 1,
    {
        1
    }
}

/// The cost of a sequence of repairs: their number, capped.
pub fn total(repairs: &[Repair]) -> (r: Cost)
    ensures
        r == (if repairs@.len() > INFINITY {
            INFINITY as int
        } else {
            repairs@.len() as int
        }),
{
    let mut acc: Cost = 0;
    let mut i: usize = 0;
    while i < repairs.len()
        invariant
            i <= repairs@.len(),
            acc == (if i > INFINITY {
                INFINITY as int
            } else {
                i as int
            }),
        decreases repairs@.len() - i,
    {
        acc = self::add(acc, repairs[i].cost());
        i = i + 1;
    }
    acc
}

/// Costs of regions combine in any grouping.
pub proof fn law_sum_associative(a: Cost, b: Cost, c: Cost)
    requires
        a <= INFINITY,
        b <= INFINITY,
        c <= INFINITY,
    ensures
        sum_of(sum_of(a, b) as Cost, c) == sum_of(a, sum_of(b, c) as Cost),
{
}

/// Costs combine in any order, and doing nothing costs nothing.
pub proof fn law_sum_commutative_identity(a: Cost, b: Cost)
    requires
        a <= INFINITY,
        b <= INFINITY,
    ensures
        sum_of(a, b) == sum_of(b, a),
        sum_of(a, 0) == a,
        sum_of(0, a) == a,
{
}

/// A repair of a region costs no more than one of the whole, and costs stay
/// within the cap.
pub proof fn law_sum_monotone_bounded(a: Cost, b: Cost)
    requires
        a <= INFINITY,
        b <= INFINITY,
    ensures
        sum_of(a, b) >= a,
        sum_of(a, b) >= b,
        sum_of(a, b) <= INFINITY,
{
}

/// Choosing the cheaper is a semilattice with unit `INFINITY`.
pub proof fn law_min_semilattice(a: Cost, b: Cost, c: Cost)
    ensures
        cheaper(cheaper(a, b), c) == cheaper(a, cheaper(b, c)),
        cheaper(a, b) == cheaper(b, a),
        cheaper(a, a) == a,
        a <= INFINITY ==> cheaper(a, INFINITY) == a,
{
}

/// A cost common to two alternatives may be added before or after choosing.
pub proof fn law_sum_distributes(a: Cost, b: Cost, c: Cost)
    requires
        a <= INFINITY,
        b <= INFINITY,
        c <= INFINITY,
    ensures
        sum_of(a, cheaper(b, c)) == cheaper(sum_of(a, b) as Cost, sum_of(a, c) as Cost),
{
}

} // verus!
