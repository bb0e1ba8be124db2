//! The frontier of the repair search: candidate streams, cheapest first.

use vstd::prelude::*;

use crate::expr::lexer::TokenKind;
use crate::expr::repair::{Cost, Move, Repair, Slot};

verus! {

/// A candidate stream with the repairs that lead to it.
pub struct Item {
    pub cost: Cost,
    /// Number of deletions among the repairs.
    pub deletions: usize,
    pub slots: Vec<Slot>,
    pub repairs: Vec<Repair>,
    pub path: Ghost<Seq<Move>>,
}

/// Preference among the token kinds of the repair alphabet.
pub open spec fn alpha_order(k: TokenKind) -> u8 {
    match k {
        TokenKind::Int => 0,
        TokenKind::Ident => 1,
        TokenKind::Plus => 2,
        TokenKind::RParen => 3,
        TokenKind::RBracket => 4,
        TokenKind::Colon => 5,
        _ => 255,
    }
}

pub fn alpha_rank(k: TokenKind) -> (r: u8)
    ensures
        r == alpha_order(k),
{
    match k {
        TokenKind::Int => 0,
        TokenKind::Ident => 1,
        TokenKind::Plus => 2,
        TokenKind::RParen => 3,
        TokenKind::RBracket => 4,
        TokenKind::Colon => 5,
        _ => 255,
    }
}

/// Preference among repairs: insertions, then substitutions, then deletions;
/// earlier places first; then by token kind.
pub open spec fn repair_order(r: Repair) -> (u8, usize, u8) {
    match r {
        Repair::Insert { at, tok } => (0, at, alpha_order(tok)),
        Repair::Substitute { at, to } => (1, at, alpha_order(to)),
        Repair::Delete { at } => (2, at, 0),
    }
}

pub fn repair_rank(r: &Repair) -> (k: (u8, usize, u8))
    ensures
        k == repair_order(*r),
{
    match r {
        Repair::Insert { at, tok } => (0, *at, alpha_rank(*tok)),
        Repair::Substitute { at, to } => (1, *at, alpha_rank(*to)),
        Repair::Delete { at } => (2, *at, 0),
    }
}

pub open spec fn rank_less(x: (u8, usize, u8), y: (u8, usize, u8)) -> bool {
    x.0 < y.0 || x.0 == y.0 && (x.1 < y.1 || x.1 == y.1 && x.2 < y.2)
}

/// Lexicographic order of two repair lists from number `k` on.
pub open spec fn repairs_less(x: Seq<Repair>, y: Seq<Repair>, k: int) -> bool
    decreases x.len() - k,
{
    if k >= x.len() || k >= y.len() {
        k >= x.len() && k < y.len()
    } else if repair_order(x[k]) == repair_order(y[k]) {
        repairs_less(x, y, k + 1)
    } else {
        rank_less(repair_order(x[k]), repair_order(y[k]))
    }
}

/// `x` comes before `y`: it is cheaper, or as cheap with fewer deletions, or
/// as good with preferred repairs.
pub open spec fn item_less(x: Item, y: Item) -> bool {
    x.cost < y.cost || x.cost == y.cost && (x.deletions < y.deletions || x.deletions == y.deletions
        && repairs_less(x.repairs@, y.repairs@, 0))
}

/// `x` does not come after `y`.
pub open spec fn no_later(x: Item, y: Item) -> bool {
    !item_less(y, x)
}

pub proof fn lemma_repairs_order(x: Seq<Repair>, y: Seq<Repair>, z: Seq<Repair>, k: int)
    requires
        0 <= k,
        !repairs_less(y, x, k),
        !repairs_less(z, y, k),
    ensures
        !repairs_less(z, x, k),
    decreases x.len() - k,
{
    if k < x.len() && k < y.len() && k < z.len() {
        if repair_order(x[k]) == repair_order(y[k]) && repair_order(y[k]) == repair_order(z[k]) {
            lemma_repairs_order(x, y, z, k + 1);
        }
    }
}

pub proof fn lemma_repairs_asym(x: Seq<Repair>, y: Seq<Repair>, k: int)
    requires
        0 <= k,
        repairs_less(x, y, k),
    ensures
        !repairs_less(y, x, k),
    decreases x.len() - k,
{
    if k < x.len() && k < y.len() && repair_order(x[k]) == repair_order(y[k]) {
        lemma_repairs_asym(x, y, k + 1);
    }
}

/// The order of candidate streams is a weak order.
pub proof fn lemma_no_later(x: Item, y: Item, z: Item)
    ensures
        no_later(x, y) && no_later(y, z) ==> no_later(x, z),
        item_less(x, y) ==> no_later(x, y),
        no_later(x, x),
        no_later(x, y) ==> x.cost <= y.cost,
{
    if no_later(x, y) && no_later(y, z) && x.cost == z.cost && x.deletions == z.deletions {
        lemma_repairs_order(x.repairs@, y.repairs@, z.repairs@, 0);
    }
    if item_less(x, y) && x.cost == y.cost && x.deletions == y.deletions {
        lemma_repairs_asym(x.repairs@, y.repairs@, 0);
    }
    lemma_repairs_self(x.repairs@, 0);
}

proof fn lemma_repairs_self(x: Seq<Repair>, k: int)
    ensures
        !repairs_less(x, x, k),
    decreases x.len() - k,
{
    if k < x.len() {
        lemma_repairs_self(x, k + 1);
    }
}

fn ranks_before(x: &Vec<Repair>, y: &Vec<Repair>) -> (r: bool)
    ensures
        r == repairs_less(x@, y@, 0),
{
    let mut k: usize = 0;
    while k < x.len() && k < y.len()
        invariant
            k <= x@.len(),
            k <= y@.len(),
            repairs_less(x@, y@, 0) == repairs_less(x@, y@, k as int),
        decreases x@.len() - k,
    {
        let (a0, a1, a2) = repair_rank(&x[k]);
        let (b0, b1, b2) = repair_rank(&y[k]);
        if a0 != b0 {
            return a0 < b0;
        }
        if a1 != b1 {
            return a1 < b1;
        }
        if a2 != b2 {
            return a2 < b2;
        }
        k = k + 1;
    }
    k >= x.len() && k < y.len()
}

fn before(x: &Item, y: &Item) -> (r: bool)
    ensures
        r == item_less(*x, *y),
{
    if x.cost != y.cost {
        return x.cost < y.cost;
    }
    if x.deletions != y.deletions {
        return x.deletions < y.deletions;
    }
    ranks_before(&x.repairs, &y.repairs)
}

/// Sum of `f` over the first `k` entries of `h`.
pub open spec fn load(h: Seq<usize>, f: spec_fn(usize) -> int, k: int) -> int
    decreases k,
{
    if 0 < k <= h.len() {
        load(h, f, k - 1) + f(h[k - 1])
    } else {
        0
    }
}

pub proof fn lemma_load_update(h: Seq<usize>, f: spec_fn(usize) -> int, i: int, x: usize, k: int)
    requires
        0 <= i < h.len(),
        0 <= k <= h.len(),
    ensures
        load(h.update(i, x), f, k) == (if i < k {
            load(h, f, k) - f(h[i]) + f(x)
        } else {
            load(h, f, k)
        }),
    decreases k,
{
    if k > 0 {
        lemma_load_update(h, f, i, x, k - 1);
    }
}

pub proof fn lemma_load_prefix(h: Seq<usize>, g: Seq<usize>, f: spec_fn(usize) -> int, k: int)
    requires
        0 <= k <= h.len(),
        k <= g.len(),
        forall|i: int| 0 <= i < k ==> h[i] == g[i],
    ensures
        load(h, f, k) == load(g, f, k),
    decreases k,
{
    if k > 0 {
        lemma_load_prefix(h, g, f, k - 1);
    }
}

/// The entries of `g` are those of `h` in another order.
pub open spec fn reordered(h: Seq<usize>, g: Seq<usize>) -> bool {
    &&& h.len() == g.len()
    &&& forall|x: usize| #[trigger] h.contains(x) <==> g.contains(x)
    &&& forall|f: spec_fn(usize) -> int|
        #[trigger] load(g, f, g.len() as int) == load(h, f, h.len() as int)
}

pub open spec fn swapped(h: Seq<usize>, i: int, j: int) -> Seq<usize> {
    h.update(i, h[j]).update(j, h[i])
}

proof fn lemma_swapped(h: Seq<usize>, i: int, j: int)
    requires
        0 <= i < h.len(),
        0 <= j < h.len(),
        i != j,
    ensures
        reordered(h, swapped(h, i, j)),
{
    let g = swapped(h, i, j);
    assert forall|x: usize| #[trigger] h.contains(x) <==> g.contains(x) by {
        if h.contains(x) {
            let k = choose|k: int| 0 <= k < h.len() && h[k] == x;
            if k == i {
                assert(g[j] == x);
            } else if k == j {
                assert(g[i] == x);
            } else {
                assert(g[k] == x);
            }
        }
        if g.contains(x) {
            let k = choose|k: int| 0 <= k < g.len() && g[k] == x;
            if k == i {
                assert(h[j] == x);
            } else if k == j {
                assert(h[i] == x);
            } else {
                assert(h[k] == x);
            }
        }
    }
    assert forall|f: spec_fn(usize) -> int|
        #[trigger] load(g, f, g.len() as int) == load(h, f, h.len() as int) by {
        lemma_load_update(h, f, i, h[j], h.len() as int);
        lemma_load_update(h.update(i, h[j]), f, j, h[i], h.len() as int);
    }
}

proof fn lemma_reordered_trans(h: Seq<usize>, g: Seq<usize>, k: Seq<usize>)
    requires
        reordered(h, g),
        reordered(g, k),
    ensures
        reordered(h, k),
{
    assert forall|x: usize| #[trigger] h.contains(x) <==> k.contains(x) by {
        assert(h.contains(x) <==> g.contains(x));
        assert(g.contains(x) <==> k.contains(x));
    }
    assert forall|f: spec_fn(usize) -> int|
        #[trigger] load(k, f, k.len() as int) == load(h, f, h.len() as int) by {
        assert(load(g, f, g.len() as int) == load(h, f, h.len() as int));
    }
}

/// Candidate streams in a binary heap of indices.
pub struct Frontier {
    pub items: Vec<Item>,
    pub heap: Vec<usize>,
}

pub open spec fn parent(i: int) -> int {
    (i - 1) / 2
}

impl Frontier {
    pub open spec fn item_at(&self, i: int) -> Item {
        self.items@[self.heap@[i] as int]
    }

    pub open spec fn indices_ok(&self) -> bool {
        forall|i: int| 0 <= i < self.heap@.len() ==> (#[trigger] self.heap@[i]) < self.items@.len()
    }

    /// No entry comes before its parent.
    pub open spec fn wf(&self) -> bool {
        &&& self.indices_ok()
        &&& forall|i: int|
            0 < i < self.heap@.len() ==> no_later(self.item_at(parent(i)), #[trigger] self.item_at(i))
    }

    pub fn new() -> (r: Frontier)
        ensures
            r.wf(),
            r.items@.len() == 0,
            r.heap@.len() == 0,
    {
        Frontier { items: Vec::new(), heap: Vec::new() }
    }

    fn swap(&mut self, i: usize, j: usize)
        requires
            i < old(self).heap@.len(),
            j < old(self).heap@.len(),
            i != j,
        ensures
            final(self).items == old(self).items,
            final(self).heap@ == swapped(old(self).heap@, i as int, j as int),
    {
        let x: usize = self.heap[i];
        let y: usize = self.heap[j];
        self.heap.set(i, y);
        self.heap.set(j, x);
    }

    /// Add a candidate stream.
    pub fn push(&mut self, item: Item)
        requires
            old(self).wf(),
        ensures
            final(self).wf(),
            final(self).items@ == old(self).items@.push(item),
            final(self).heap@.len() == old(self).heap@.len() + 1,
            forall|x: usize| #[trigger]
                final(self).heap@.contains(x) <==> old(self).heap@.contains(x) || x
                    == old(self).items@.len(),
            forall|f: spec_fn(usize) -> int| #[trigger]
                load(final(self).heap@, f, final(self).heap@.len() as int) == load(
                    old(self).heap@,
                    f,
                    old(self).heap@.len() as int,
                ) + f(old(self).items@.len() as usize),
    {
        let idx: usize = self.items.len();
        self.items.push(item);
        let ghost items = self.items@;
        let mut i: usize = self.heap.len();
        self.heap.push(idx);
        let ghost h0 = self.heap@;
        proof {
            let o = old(self).heap@;
            assert forall|x: usize| #[trigger] h0.contains(x) <==> o.contains(x) || x == idx by {
                if o.contains(x) {
                    let k = choose|k: int| 0 <= k < o.len() && o[k] == x;
                    assert(h0[k] == x);
                }
                assert(h0[o.len() as int] == idx);
            }
            assert forall|f: spec_fn(usize) -> int|
                #[trigger] load(h0, f, h0.len() as int) == load(o, f, o.len() as int) + f(idx) by {
                lemma_load_prefix(h0, o, f, o.len() as int);
            }
            assert(reordered(h0, h0));
            assert forall|k: int| 0 < k < h0.len() && k != i implies no_later(self.item_at(parent(k)), #[trigger] self.item_at(k)) by {
                assert(o[k] == h0[k] && o[parent(k)] == h0[parent(k)]);
                assert(no_later(old(self).item_at(parent(k)), old(self).item_at(k)));
            }
        }
        while i > 0
            invariant
                self.items@ == items,
                self.indices_ok(),
                reordered(h0, self.heap@),
                i < self.heap@.len(),
                forall|k: int|
                    0 < k < self.heap@.len() && k != i ==> no_later(self.item_at(parent(k)), #[trigger] self.item_at(k)),
                i > 0 ==> forall|k: int|
                    0 < k < self.heap@.len() && parent(k) == i ==> no_later(self.item_at(parent(i as int)), #[trigger] self.item_at(k)),
            ensures
                self.items@ == items,
                self.wf(),
                reordered(h0, self.heap@),
            decreases i,
        {
            let p: usize = (i - 1) / 2;
            if !before(&self.items[self.heap[i]], &self.items[self.heap[p]]) {
                break;
            }
            let ghost h1 = self.heap@;
            let ghost prev = *self;
            self.swap(i, p);
            proof {
                lemma_swapped(h1, i as int, p as int);
                lemma_reordered_trans(h0, h1, self.heap@);
                lemma_no_later(prev.item_at(i as int), prev.item_at(p as int), prev.item_at(i as int));
                lemma_sift_up(prev, *self, i as int, p as int);
            }
            i = p;
        }
        proof {
            assert forall|x: usize| #[trigger]
                self.heap@.contains(x) <==> old(self).heap@.contains(x) || x == idx by {
                assert(h0.contains(x) <==> self.heap@.contains(x));
            }
        }
    }

    /// The cheaper child of entry `i`, which has one.
    fn cheaper_child(&self, i: usize) -> (c: usize)
        requires
            self.indices_ok(),
            2 * i + 1 < self.heap@.len(),
        ensures
            c == 2 * i + 1 || c == 2 * i + 2,
            c < self.heap@.len(),
            forall|k: int|
                0 < k < self.heap@.len() && parent(k) == i ==> no_later(self.item_at(c as int), #[trigger] self.item_at(k)),
    {
        let m: usize = self.heap.len();
        let l: usize = 2 * i + 1;
        let c: usize = if l + 1 < m && before(
            &self.items[self.heap[l + 1]],
            &self.items[self.heap[l]],
        ) {
            l + 1
        } else {
            l
        };
        proof {
            assert forall|k: int| 0 < k < m && parent(k) == i implies no_later(self.item_at(c as int), #[trigger] self.item_at(k)) by {
                assert(k == l || k == l + 1);
                lemma_no_later(self.item_at(l as int), self.item_at(l as int), self.item_at(l as int));
                lemma_no_later(self.item_at(c as int), self.item_at(l as int), self.item_at(c as int));
            }
        }
        c
    }

    /// Restore the order below the first entry.
    fn sift_down(&mut self, Ghost(h0): Ghost<Seq<usize>>)
        requires
            old(self).indices_ok(),
            old(self).heap@.len() > 0,
            old(self).heap@ == h0,
            forall|k: int|
                0 < k < h0.len() && parent(k) != 0 ==> no_later(old(self).item_at(parent(k)), #[trigger] old(self).item_at(k)),
        ensures
            final(self).wf(),
            final(self).items == old(self).items,
            reordered(h0, final(self).heap@),
    {
        let m: usize = self.heap.len();
        let mut i: usize = 0;
        assert(reordered(h0, h0));
        while i < m / 2
            invariant
                self.items == old(self).items,
                self.indices_ok(),
                reordered(h0, self.heap@),
                i < m,
                m == self.heap@.len(),
                forall|k: int|
                    0 < k < m && parent(k) != i ==> no_later(self.item_at(parent(k)), #[trigger] self.item_at(k)),
                i > 0 ==> forall|k: int|
                    0 < k < m && parent(k) == i ==> no_later(self.item_at(parent(i as int)), #[trigger] self.item_at(k)),
            decreases m - i,
        {
            let c: usize = self.cheaper_child(i);
            if !before(&self.items[self.heap[c]], &self.items[self.heap[i]]) {
                proof {
                    assert forall|k: int| 0 < k < m implies no_later(self.item_at(parent(k)), #[trigger] self.item_at(k)) by {
                        if parent(k) == i {
                            assert(no_later(self.item_at(c as int), self.item_at(k)));
                            lemma_no_later(
                                self.item_at(i as int),
                                self.item_at(c as int),
                                self.item_at(k),
                            );
                        }
                    }
                }
                return;
            }
            let ghost h1 = self.heap@;
            let ghost prev = *self;
            self.swap(i, c);
            proof {
                lemma_swapped(h1, i as int, c as int);
                lemma_reordered_trans(h0, h1, self.heap@);
                lemma_no_later(prev.item_at(c as int), prev.item_at(i as int), prev.item_at(c as int));
                lemma_sift_down(prev, *self, i as int, c as int);
            }
            i = c;
        }
        proof {
            assert forall|k: int| 0 < k < m implies no_later(self.item_at(parent(k)), #[trigger] self.item_at(k)) by {
                assert(parent(k) != i);
            }
        }
    }

    /// Take a candidate stream that no other comes before: its index into
    /// `items`.
    pub fn pop(&mut self) -> (r: Option<usize>)
        requires
            old(self).wf(),
        ensures
            final(self).wf(),
            final(self).items == old(self).items,
            match r {
                Some(x) => {
                    &&& x < old(self).items@.len()
                    &&& old(self).heap@.contains(x)
                    &&& final(self).heap@.len() == old(self).heap@.len() - 1
                    &&& forall|y: usize| #[trigger]
                        old(self).heap@.contains(y) ==> no_later(
                            old(self).items@[x as int],
                            old(self).items@[y as int],
                        )
                    &&& forall|y: usize| #[trigger]
                        old(self).heap@.contains(y) ==> old(self).items@[x as int].cost
                            <= old(self).items@[y as int].cost
                    &&& forall|y: usize| #[trigger]
                        final(self).heap@.contains(y) ==> old(self).heap@.contains(y)
                    &&& forall|y: usize| #[trigger]
                        old(self).heap@.contains(y) ==> y == x || final(self).heap@.contains(y)
                    &&& forall|f: spec_fn(usize) -> int| #[trigger]
                        load(final(self).heap@, f, final(self).heap@.len() as int) == load(
                            old(self).heap@,
                            f,
                            old(self).heap@.len() as int,
                        ) - f(x)
                },
                None => old(self).heap@.len() == 0 && final(self).heap@ == old(self).heap@,
            },
    {
        let n: usize = self.heap.len();
        if n == 0 {
            return None;
        }
        let x: usize = self.heap[0];
        let last: usize = self.heap[n - 1];
        let ghost o = self.heap@;
        proof {
            lemma_root_least(*self);
            assert(o[0] == x);
        }
        let _ = self.heap.pop();
        if n == 1 {
            proof {
                assert forall|y: usize| o.contains(y) implies y == x by {}
                assert forall|f: spec_fn(usize) -> int|
                    #[trigger] load(self.heap@, f, 0) == load(o, f, 1) - f(x) by {
                    assert(load(o, f, 1) == load(o, f, 0) + f(o[0]));
                }
            }
            return Some(x);
        }
        self.heap.set(0, last);
        let ghost h0 = self.heap@;
        proof {
            lemma_popped(o, h0);
            assert(reordered(h0, h0));
            assert forall|k: int| 0 < k < h0.len() && parent(k) != 0 implies no_later(self.item_at(parent(k)), #[trigger] self.item_at(k)) by {
                assert(h0[k] == o[k] && h0[parent(k)] == o[parent(k)]);
                assert(no_later(old(self).item_at(parent(k)), old(self).item_at(k)));
            }
        }
        self.sift_down(Ghost(h0));
        proof {
            let h = self.heap@;
            assert forall|y: usize| #[trigger] h.contains(y) implies o.contains(y) by {
                assert(h0.contains(y));
            }
            assert forall|y: usize| #[trigger] o.contains(y) implies y == x || h.contains(y) by {
                if y != x {
                    assert(h0.contains(y));
                }
            }
        }
        Some(x)
    }
}

/// No entry of a heap comes before its first.
proof fn lemma_root_least(h: Frontier)
    requires
        h.wf(),
        h.heap@.len() > 0,
    ensures
        forall|y: usize| #[trigger]
            h.heap@.contains(y) ==> no_later(h.items@[h.heap@[0] as int], h.items@[y as int])
                && h.items@[h.heap@[0] as int].cost <= h.items@[y as int].cost,
{
    assert forall|y: usize| #[trigger] h.heap@.contains(y) implies no_later(
        h.items@[h.heap@[0] as int],
        h.items@[y as int],
    ) && h.items@[h.heap@[0] as int].cost <= h.items@[y as int].cost by {
        let k = choose|k: int| 0 <= k < h.heap@.len() && h.heap@[k] == y;
        lemma_root_below(h, k);
        lemma_no_later(h.item_at(0), h.item_at(k), h.item_at(k));
    }
}

proof fn lemma_root_below(h: Frontier, k: int)
    requires
        h.wf(),
        0 <= k < h.heap@.len(),
    ensures
        no_later(h.item_at(0), h.item_at(k)),
    decreases k,
{
    if k > 0 {
        lemma_root_below(h, parent(k));
        lemma_no_later(h.item_at(0), h.item_at(parent(k)), h.item_at(k));
    } else {
        lemma_no_later(h.item_at(0), h.item_at(0), h.item_at(0));
    }
}

/// Dropping the last entry and putting it first drops the first entry.
proof fn lemma_popped(o: Seq<usize>, h: Seq<usize>)
    requires
        o.len() >= 2,
        h == o.drop_last().update(0, o.last()),
    ensures
        forall|y: usize| #[trigger] h.contains(y) ==> o.contains(y),
        forall|y: usize| #[trigger] o.contains(y) ==> y == o[0] || h.contains(y),
        forall|f: spec_fn(usize) -> int|
            #[trigger] load(h, f, h.len() as int) == load(o, f, o.len() as int) - f(o[0]),
{
    let n = o.len() as int;
    assert forall|y: usize| #[trigger] h.contains(y) implies o.contains(y) by {
        let k = choose|k: int| 0 <= k < h.len() && h[k] == y;
        if k == 0 {
            assert(o[n - 1] == y);
        } else {
            assert(o[k] == y);
        }
    }
    assert forall|y: usize| #[trigger] o.contains(y) implies y == o[0] || h.contains(y) by {
        let k = choose|k: int| 0 <= k < o.len() && o[k] == y;
        if k == n - 1 {
            assert(h[0] == y);
        } else if k > 0 {
            assert(h[k] == y);
        }
    }
    assert forall|f: spec_fn(usize) -> int|
        #[trigger] load(h, f, h.len() as int) == load(o, f, o.len() as int) - f(o[0]) by {
        let d = o.drop_last();
        lemma_load_update(d, f, 0, o.last(), d.len() as int);
        lemma_load_prefix(d, o, f, n - 1);
    }
}

proof fn lemma_sift_up(a: Frontier, b: Frontier, i: int, p: int)
    requires
        0 < i < a.heap@.len(),
        p == parent(i),
        b.items@ == a.items@,
        b.heap@ == swapped(a.heap@, i, p),
        a.indices_ok(),
        forall|k: int|
            0 < k < a.heap@.len() && k != i ==> no_later(a.item_at(parent(k)), #[trigger] a.item_at(k)),
        forall|k: int|
            0 < k < a.heap@.len() && parent(k) == i ==> no_later(a.item_at(p), #[trigger] a.item_at(k)),
        no_later(a.item_at(i), a.item_at(p)),
    ensures
        b.indices_ok(),
        forall|k: int|
            0 < k < b.heap@.len() && k != p ==> no_later(b.item_at(parent(k)), #[trigger] b.item_at(k)),
        p > 0 ==> forall|k: int|
            0 < k < b.heap@.len() && parent(k) == p ==> no_later(b.item_at(parent(p)), #[trigger] b.item_at(k)),
{
    assert forall|k: int| 0 < k < b.heap@.len() && k != p implies no_later(b.item_at(parent(k)), #[trigger] b.item_at(k)) by {
        if k == i {
        } else {
            assert(b.item_at(k) == a.item_at(k));
            assert(no_later(a.item_at(parent(k)), a.item_at(k)));
            if parent(k) == i {
                assert(no_later(a.item_at(p), a.item_at(k)));
            } else if parent(k) == p {
                lemma_no_later(a.item_at(i), a.item_at(p), a.item_at(k));
            }
        }
    }
    if p > 0 {
        assert(no_later(a.item_at(parent(p)), a.item_at(p)));
        assert forall|k: int| 0 < k < b.heap@.len() && parent(k) == p implies no_later(b.item_at(parent(p)), #[trigger] b.item_at(k)) by {
            if k != i {
                assert(no_later(a.item_at(parent(k)), a.item_at(k)));
                lemma_no_later(a.item_at(parent(p)), a.item_at(p), a.item_at(k));
            }
        }
    }
}

proof fn lemma_sift_down(a: Frontier, b: Frontier, i: int, c: int)
    requires
        0 <= i < a.heap@.len(),
        c == 2 * i + 1 || c == 2 * i + 2,
        c < a.heap@.len(),
        b.items@ == a.items@,
        b.heap@ == swapped(a.heap@, i, c),
        a.indices_ok(),
        forall|k: int|
            0 < k < a.heap@.len() && parent(k) != i ==> no_later(a.item_at(parent(k)), #[trigger] a.item_at(k)),
        i > 0 ==> forall|k: int|
            0 < k < a.heap@.len() && parent(k) == i ==> no_later(a.item_at(parent(i)), #[trigger] a.item_at(k)),
        no_later(a.item_at(c), a.item_at(i)),
        forall|k: int|
            0 < k < a.heap@.len() && parent(k) == i ==> no_later(a.item_at(c), #[trigger] a.item_at(k)),
    ensures
        b.indices_ok(),
        forall|k: int|
            0 < k < b.heap@.len() && parent(k) != c ==> no_later(b.item_at(parent(k)), #[trigger] b.item_at(k)),
        c > 0 ==> forall|k: int|
            0 < k < b.heap@.len() && parent(k) == c ==> no_later(b.item_at(parent(c)), #[trigger] b.item_at(k)),
{
    assert(parent(c) == i);
    assert forall|k: int| 0 < k < b.heap@.len() && parent(k) != c implies no_later(b.item_at(parent(k)), #[trigger] b.item_at(k)) by {
        if k == c {
        } else if parent(k) == i {
            assert(no_later(a.item_at(c), a.item_at(k)));
        } else if k == i {
            assert(no_later(a.item_at(parent(i)), a.item_at(c)));
        } else {
            assert(no_later(a.item_at(parent(k)), a.item_at(k)));
        }
    }
    assert forall|k: int| 0 < k < b.heap@.len() && parent(k) == c implies no_later(b.item_at(parent(c)), #[trigger] b.item_at(k)) by {
        assert(no_later(a.item_at(parent(k)), a.item_at(k)));
    }
}

} // verus!
