//! Expanding a candidate stream: all streams one repair away from it.

use vstd::prelude::*;

use crate::expr::exchange::slots_ok;
use crate::expr::frontier::{alpha_order, Item};
use crate::expr::lexer::TokenKind;
use crate::expr::repair::{
    allowed, gap_in_window, in_alphabet, in_window, legal, lemma_path_cost, move_cost, moved, next_keep, path_cost,
    repair_of, repairs_of, run, Cost, Move, Repair, RepairCosts, Slot, INFINITY,
};

verus! {

/// Number of deletions among the first `k` repairs.
pub open spec fn deletions_upto(rs: Seq<Repair>, k: int) -> int
    decreases k,
{
    if 0 < k <= rs.len() {
        deletions_upto(rs, k - 1) + (if rs[k - 1] is Delete {
            1int
        } else {
            0
        })
    } else {
        0
    }
}

proof fn lemma_deletions_prefix(x: Seq<Repair>, y: Seq<Repair>, k: int)
    requires
        0 <= k <= x.len(),
        k <= y.len(),
        forall|i: int| 0 <= i < k ==> x[i] == y[i],
    ensures
        deletions_upto(x, k) == deletions_upto(y, k),
        0 <= deletions_upto(x, k) <= k,
    decreases k,
{
    if k > 0 {
        lemma_deletions_prefix(x, y, k - 1);
    }
}

/// The item holds what its path leads to.
pub open spec fn item_ok(
    n: int,
    w: Option<(usize, usize)>,
    c: RepairCosts,
    max: int,
    item: Item,
) -> bool {
    let path = item.path@;
    &&& legal(n, w, path)
    &&& item.slots@ == run(n, path)
    &&& item.repairs@ == repairs_of(n, path)
    &&& item.cost == path_cost(c, path)
    &&& item.cost <= max
    &&& slots_ok(n, item.slots@)
    &&& item.deletions == deletions_upto(item.repairs@, item.repairs@.len() as int)
}

/// One of the items has path `path`.
pub open spec fn holds_path(items: Seq<Item>, path: Seq<Move>) -> bool {
    exists|i: int| 0 <= i < items.len() && (#[trigger] items[i]).path@ == path
}

/// Every step allowed from `item` within the bound that satisfies `which` has
/// its item.
pub open spec fn steps_held(
    n: int,
    w: Option<(usize, usize)>,
    c: RepairCosts,
    max: int,
    item: Item,
    out: Seq<Item>,
    which: spec_fn(Move) -> bool,
) -> bool {
    forall|m: Move|
        which(m) && #[trigger] allowed(n, w, item.slots@, m) && item.cost + move_cost(c, m) <= max
            ==> holds_path(out, item.path@.push(m))
}

/// `out` holds items one step away from `item`.
pub open spec fn steps_ok(
    n: int,
    w: Option<(usize, usize)>,
    c: RepairCosts,
    max: int,
    item: Item,
    out: Seq<Item>,
) -> bool {
    forall|i: int|
        0 <= i < out.len() ==> {
            &&& item_ok(n, w, c, max, #[trigger] out[i])
            &&& out[i].path@.len() == item.path@.len() + 1
            &&& out[i].cost >= item.cost
            &&& c.positive() ==> out[i].cost > item.cost
        }
}

proof fn lemma_held_push(
    n: int,
    w: Option<(usize, usize)>,
    c: RepairCosts,
    max: int,
    item: Item,
    out: Seq<Item>,
    x: Item,
    which: spec_fn(Move) -> bool,
)
    requires
        steps_held(n, w, c, max, item, out, which),
    ensures
        steps_held(n, w, c, max, item, out.push(x), which),
{
    assert forall|m: Move|
        which(m) && #[trigger] allowed(n, w, item.slots@, m) && item.cost + move_cost(c, m) <= max implies holds_path(
        out.push(x),
        item.path@.push(m),
    ) by {
        let p = item.path@.push(m);
        assert(holds_path(out, p));
        let i = choose|i: int| 0 <= i < out.len() && (#[trigger] out[i]).path@ == p;
        assert(out.push(x)[i].path@ == p);
    }
}

fn copy_slots(v: &Vec<Slot>) -> (r: Vec<Slot>)
    ensures
        r@ == v@,
{
    let mut out: Vec<Slot> = Vec::new();
    let mut i: usize = 0;
    while i < v.len()
        invariant
            i <= v@.len(),
            out@ == v@.take(i as int),
        decreases v@.len() - i,
    {
        out.push(v[i]);
        proof {
            assert(v@.take(i + 1) =~= v@.take(i as int).push(v@[i as int]));
        }
        i = i + 1;
    }
    proof {
        assert(v@.take(v@.len() as int) =~= v@);
    }
    out
}

pub fn copy_repairs(v: &Vec<Repair>) -> (r: Vec<Repair>)
    ensures
        r@ == v@,
{
    let mut out: Vec<Repair> = Vec::new();
    let mut i: usize = 0;
    while i < v.len()
        invariant
            i <= v@.len(),
            out@ == v@.take(i as int),
        decreases v@.len() - i,
    {
        out.push(v[i]);
        proof {
            assert(v@.take(i + 1) =~= v@.take(i as int).push(v@[i as int]));
        }
        i = i + 1;
    }
    proof {
        assert(v@.take(v@.len() as int) =~= v@);
    }
    out
}

/// Add the stream that one more `repair` leads to, if it is cheap enough.
fn push_state(
    out: &mut Vec<Item>,
    item: &Item,
    costs: &RepairCosts,
    slots: Vec<Slot>,
    repair: Repair,
    max_cost: Cost,
    Ghost(n): Ghost<int>,
    Ghost(w): Ghost<Option<(usize, usize)>>,
    Ghost(m): Ghost<Move>,
)
    requires
        0 <= n <= usize::MAX,
        max_cost < INFINITY,
        item_ok(n, w, *costs, max_cost as int, *item),
        allowed(n, w, item.slots@, m),
        slots@ == moved(item.slots@, m),
        repair == repair_of(n, item.slots@, m),
        steps_ok(n, w, *costs, max_cost as int, *item, old(out)@),
    ensures
        steps_ok(n, w, *costs, max_cost as int, *item, final(out)@),
        old(out)@.len() <= final(out)@.len() <= old(out)@.len() + 1,
        forall|which: spec_fn(Move) -> bool|
            #[trigger] steps_held(n, w, *costs, max_cost as int, *item, old(out)@, which)
                ==> steps_held(n, w, *costs, max_cost as int, *item, final(out)@, which),
        item.cost + move_cost(*costs, m) <= max_cost ==> holds_path(final(out)@, item.path@.push(m)),
{
    let new_cost: Cost = item.cost.saturating_add(costs.cost(&repair));
    if new_cost > max_cost {
        return;
    }
    let ghost path = item.path@.push(m);
    proof {
        assert(path.drop_last() =~= item.path@);
        assert(path.last() == m);
        assert(run(n, path) == moved(run(n, item.path@), m));
        assert(legal(n, w, path));
        assert(path_cost(*costs, path) == path_cost(*costs, item.path@) + move_cost(*costs, m));
        assert(repairs_of(n, path) == repairs_of(n, item.path@).push(repair));
        lemma_path_cost(n, *costs, item.path@);
        assert(slots_ok(n, slots@));
    }
    let mut repairs = copy_repairs(&item.repairs);
    repairs.push(repair);
    let count: usize = repairs.len();
    proof {
        lemma_deletions_prefix(repairs@, item.repairs@, item.repairs@.len() as int);
        lemma_deletions_prefix(repairs@, repairs@, repairs@.len() as int);
    }
    let deletions: usize = match repair {
        Repair::Delete { at: _ } => item.deletions + 1,
        _ => item.deletions,
    };
    let x = Item { cost: new_cost, deletions, slots, repairs, path: Ghost(path) };
    let ghost before = out@;
    out.push(x);
    proof {
        assert forall|which: spec_fn(Move) -> bool|
            #[trigger] steps_held(n, w, *costs, max_cost as int, *item, before, which) implies steps_held(
            n,
            w,
            *costs,
            max_cost as int,
            *item,
            out@,
            which,
        ) by {
            lemma_held_push(n, w, *costs, max_cost as int, *item, before, x, which);
        }
        assert(out@[before.len() as int].path@ == path);
        assert forall|i: int| 0 <= i < out@.len() implies {
            &&& item_ok(n, w, *costs, max_cost as int, #[trigger] out@[i])
            &&& out@[i].path@.len() == item.path@.len() + 1
            &&& out@[i].cost >= item.cost
        } by {
            if i < before.len() {
                assert(out@[i] == before[i]);
            }
        }
    }
}

/// The repair alphabet in order of preference.
fn alphabet(i: usize) -> (k: TokenKind)
    requires
        i < 6,
    ensures
        alpha_order(k) == i,
        in_alphabet(k),
{
    if i == 0 {
        TokenKind::Int
    } else if i == 1 {
        TokenKind::Ident
    } else if i == 2 {
        TokenKind::Plus
    } else if i == 3 {
        TokenKind::RParen
    } else if i == 4 {
        TokenKind::RBracket
    } else {
        TokenKind::Colon
    }
}

/// Original index of the first kept token from slot `g` on, or `default`.
fn next_keep_orig(slots: &Vec<Slot>, g: usize, default: usize) -> (r: usize)
    requires
        g <= slots@.len(),
    ensures
        r == next_keep(slots@, g as int, default as int),
{
    let mut i: usize = g;
    while i < slots.len()
        invariant
            g <= i <= slots@.len(),
            next_keep(slots@, g as int, default as int) == next_keep(
                slots@,
                i as int,
                default as int,
            ),
        decreases slots@.len() - i,
    {
        if let Slot::Keep(o) = slots[i] {
            return o;
        }
        i = i + 1;
    }
    default
}

fn in_idx(window: Option<(usize, usize)>, i: usize) -> (r: bool)
    ensures
        r == in_window(window, i as int),
{
    match window {
        None => true,
        Some((lo, hi)) => lo <= i && i < hi,
    }
}

fn in_gap(window: Option<(usize, usize)>, i: usize) -> (r: bool)
    ensures
        r == gap_in_window(window, i as int),
{
    match window {
        None => true,
        Some((lo, hi)) => lo <= i && i <= hi,
    }
}

pub open spec fn touches_below(i: int) -> spec_fn(Move) -> bool {
    |m: Move|
        match m {
            Move::Del(j) => j < i,
            Move::Sub(j, k) => j < i,
            Move::Ins(g, k) => false,
        }
}

pub open spec fn subs_below(i: int, a: int) -> spec_fn(Move) -> bool {
    |m: Move|
        match m {
            Move::Del(j) => j == i,
            Move::Sub(j, k) => j == i && alpha_order(k) < a,
            Move::Ins(g, k) => false,
        }
}

pub open spec fn inserts_below(i: int) -> spec_fn(Move) -> bool {
    |m: Move|
        match m {
            Move::Ins(g, k) => g < i,
            _ => false,
        }
}

pub open spec fn fills_below(i: int, a: int) -> spec_fn(Move) -> bool {
    |m: Move|
        match m {
            Move::Ins(g, k) => g == i && alpha_order(k) < a,
            _ => false,
        }
}

/// The deletion and the substitutions of slot `i`.
fn push_succ(
    out: &mut Vec<Item>,
    item: &Item,
    i: usize,
    window: Option<(usize, usize)>,
    costs: &RepairCosts,
    max_cost: Cost,
    Ghost(n): Ghost<int>,
)
    requires
        0 <= n <= usize::MAX,
        max_cost < INFINITY,
        item_ok(n, window, *costs, max_cost as int, *item),
        i < item.slots@.len(),
        steps_ok(n, window, *costs, max_cost as int, *item, old(out)@),
        steps_held(n, window, *costs, max_cost as int, *item, old(out)@, touches_below(i as int)),
    ensures
        steps_ok(n, window, *costs, max_cost as int, *item, final(out)@),
        steps_held(n, window, *costs, max_cost as int, *item, final(out)@, touches_below(i + 1)),
        final(out)@.len() <= old(out)@.len() + 7,
{
    let ghost max = max_cost as int;
    let orig: usize = match item.slots[i] {
        Slot::Keep(o) => o,
        Slot::Synth(_) => {
            return;
        },
    };
    if !in_idx(window, orig) {
        return;
    }
    let mut slots = copy_slots(&item.slots);
    let _ = slots.remove(i);
    push_state(
        out,
        item,
        costs,
        slots,
        Repair::Delete { at: orig },
        max_cost,
        Ghost(n),
        Ghost(window),
        Ghost(Move::Del(i as int)),
    );
    let mut a: usize = 0;
    while a < 6
        invariant
            a <= 6,
            0 <= n <= usize::MAX,
            max_cost < INFINITY,
            max == max_cost,
            item_ok(n, window, *costs, max_cost as int, *item),
            i < item.slots@.len(),
            item.slots@[i as int] == Slot::Keep(orig),
            in_window(window, orig as int),
            steps_ok(n, window, *costs, max, *item, out@),
            steps_held(n, window, *costs, max, *item, out@, touches_below(i as int)),
            steps_held(n, window, *costs, max, *item, out@, subs_below(i as int, a as int)),
            out@.len() <= old(out)@.len() + 1 + a,
        decreases 6 - a,
    {
        let tok = alphabet(a);
        let mut slots = copy_slots(&item.slots);
        slots.set(i, Slot::Synth(tok));
        push_state(
            out,
            item,
            costs,
            slots,
            Repair::Substitute { at: orig, to: tok },
            max_cost,
            Ghost(n),
            Ghost(window),
            Ghost(Move::Sub(i as int, tok)),
        );
        proof {
            assert forall|m: Move|
                subs_below(i as int, a + 1)(m) && #[trigger] allowed(n, window, item.slots@, m)
                    && item.cost + move_cost(*costs, m) <= max implies holds_path(
                out@,
                item.path@.push(m),
            ) by {
                if !subs_below(i as int, a as int)(m) {
                    assert(m == Move::Sub(i as int, tok));
                }
            }
        }
        a = a + 1;
    }
    proof {
        assert forall|m: Move|
            touches_below(i + 1)(m) && #[trigger] allowed(n, window, item.slots@, m) && item.cost
                + move_cost(*costs, m) <= max implies holds_path(out@, item.path@.push(m)) by {
            if !touches_below(i as int)(m) {
                assert(subs_below(i as int, 6)(m));
            }
        }
    }
}

/// The insertions into gap `g`.
fn push_inserts(
    out: &mut Vec<Item>,
    item: &Item,
    g: usize,
    count: usize,
    window: Option<(usize, usize)>,
    costs: &RepairCosts,
    max_cost: Cost,
)
    requires
        max_cost < INFINITY,
        item_ok(count as int, window, *costs, max_cost as int, *item),
        g <= item.slots@.len(),
        steps_ok(count as int, window, *costs, max_cost as int, *item, old(out)@),
        steps_held(
            count as int,
            window,
            *costs,
            max_cost as int,
            *item,
            old(out)@,
            touches_below(item.slots@.len() as int),
        ),
        steps_held(
            count as int,
            window,
            *costs,
            max_cost as int,
            *item,
            old(out)@,
            inserts_below(g as int),
        ),
    ensures
        steps_ok(count as int, window, *costs, max_cost as int, *item, final(out)@),
        steps_held(
            count as int,
            window,
            *costs,
            max_cost as int,
            *item,
            final(out)@,
            touches_below(item.slots@.len() as int),
        ),
        steps_held(
            count as int,
            window,
            *costs,
            max_cost as int,
            *item,
            final(out)@,
            inserts_below(g + 1),
        ),
        final(out)@.len() <= old(out)@.len() + 6,
{
    let ghost max = max_cost as int;
    let ghost n = count as int;
    let orig: usize = next_keep_orig(&item.slots, g, count);
    if !in_gap(window, orig) {
        return;
    }
    let mut a: usize = 0;
    while a < 6
        invariant
            a <= 6,
            n == count,
            max_cost < INFINITY,
            max == max_cost,
            item_ok(n, window, *costs, max_cost as int, *item),
            g <= item.slots@.len(),
            orig == next_keep(item.slots@, g as int, n),
            gap_in_window(window, orig as int),
            steps_ok(n, window, *costs, max, *item, out@),
            steps_held(n, window, *costs, max, *item, out@, touches_below(item.slots@.len() as int)),
            steps_held(n, window, *costs, max, *item, out@, inserts_below(g as int)),
            steps_held(n, window, *costs, max, *item, out@, fills_below(g as int, a as int)),
            out@.len() <= old(out)@.len() + a,
        decreases 6 - a,
    {
        let tok = alphabet(a);
        let mut slots = copy_slots(&item.slots);
        slots.insert(g, Slot::Synth(tok));
        push_state(
            out,
            item,
            costs,
            slots,
            Repair::Insert { at: orig, tok },
            max_cost,
            Ghost(n),
            Ghost(window),
            Ghost(Move::Ins(g as int, tok)),
        );
        proof {
            assert forall|m: Move|
                fills_below(g as int, a + 1)(m) && #[trigger] allowed(n, window, item.slots@, m)
                    && item.cost + move_cost(*costs, m) <= max implies holds_path(
                out@,
                item.path@.push(m),
            ) by {
                if !fills_below(g as int, a as int)(m) {
                    assert(m == Move::Ins(g as int, tok));
                }
            }
        }
        a = a + 1;
    }
    proof {
        assert forall|m: Move|
            inserts_below(g + 1)(m) && #[trigger] allowed(n, window, item.slots@, m) && item.cost
                + move_cost(*costs, m) <= max implies holds_path(out@, item.path@.push(m)) by {
            if !inserts_below(g as int)(m) {
                assert(fills_below(g as int, 6)(m));
            }
        }
    }
}

/// All streams one affordable repair away from `item`.
pub fn successors(
    item: &Item,
    count: usize,
    window: Option<(usize, usize)>,
    costs: &RepairCosts,
    max_cost: Cost,
) -> (out: Vec<Item>)
    requires
        max_cost < INFINITY,
        item_ok(count as int, window, *costs, max_cost as int, *item),
    ensures
        steps_ok(count as int, window, *costs, max_cost as int, *item, out@),
        out@.len() <= 13 * (item.slots@.len() + 1),
        forall|m: Move|
            #[trigger] allowed(count as int, window, item.slots@, m) && item.cost + move_cost(
                *costs,
                m,
            ) <= max_cost ==> holds_path(out@, item.path@.push(m)),
{
    let ghost n = count as int;
    let ghost max = max_cost as int;
    let mut out: Vec<Item> = Vec::new();
    let mut i: usize = 0;
    while i < item.slots.len()
        invariant
            i <= item.slots@.len(),
            n == count,
            max_cost < INFINITY,
            max == max_cost,
            item_ok(n, window, *costs, max, *item),
            steps_ok(n, window, *costs, max, *item, out@),
            steps_held(n, window, *costs, max, *item, out@, touches_below(i as int)),
            out@.len() <= 7 * i,
        decreases item.slots@.len() - i,
    {
        push_succ(&mut out, item, i, window, costs, max_cost, Ghost(n));
        i = i + 1;
    }
    let len: usize = item.slots.len();
    let mut g: usize = 0;
    while g < len
        invariant
            g <= len,
            len == item.slots@.len(),
            n == count,
            max_cost < INFINITY,
            max == max_cost,
            item_ok(n, window, *costs, max, *item),
            steps_ok(n, window, *costs, max, *item, out@),
            steps_held(n, window, *costs, max, *item, out@, touches_below(len as int)),
            steps_held(n, window, *costs, max, *item, out@, inserts_below(g as int)),
            out@.len() <= 7 * len + 6 * g,
        decreases len - g,
    {
        push_inserts(&mut out, item, g, count, window, costs, max_cost);
        g = g + 1;
    }
    push_inserts(&mut out, item, len, count, window, costs, max_cost);
    proof {
        assert forall|m: Move|
            #[trigger] allowed(n, window, item.slots@, m) && item.cost + move_cost(*costs, m)
                <= max implies holds_path(out@, item.path@.push(m)) by {
            assert(touches_below(len as int)(m) || inserts_below(len + 1)(m));
        }
    }
    out
}

} // verus!
