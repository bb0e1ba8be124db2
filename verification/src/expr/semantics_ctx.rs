//! Incremental evaluation keyed by node identity.
//!
//! A reused subtree keeps its identity, so its syntax is unchanged; its value
//! may still change with a binding it reads. `ContextEvaluator` records the
//! bindings each value was computed from and reuses a value only while they
//! hold. `NaiveNodeIdEvaluator` keys on identity alone.

use rustc_hash::FxHashMap;
use std::sync::Arc;
use vstd::prelude::*;
use vstd::string::*;
use vstd::utf8::*;

use crate::expr::ast::{occurs, Node, NodeKind, Shape, ShapeKind};
use crate::expr::cache::ReuseCache;
use crate::expr::meaning::{
    apply_binary, apply_prefix, atom_meaning, binary_value, lookup, number, parse_i64, prefix_value, value_of,
    Bindings,
};
use crate::expr::naming::{from_cache, law_identities_name, minted};
use crate::index::{entries, index_get, index_insert, index_new};

verus! {

/// Memos smaller than this are not collected.
pub const GC_FLOOR: usize = 1024;

/// Variable bindings.
pub struct Env {
    pub bindings: Vec<(String, i64)>,
}

/// The value of `name` in the first `k` bindings; a later one wins.
pub open spec fn bound_upto(v: Seq<(String, i64)>, k: int) -> Bindings
    decreases k,
{
    if 0 < k <= v.len() {
        bound_upto(v, k - 1).insert(v[k - 1].0@, v[k - 1].1)
    } else {
        Map::empty()
    }
}

impl View for Env {
    type V = Bindings;

    open spec fn view(&self) -> Bindings {
        bound_upto(self.bindings@, self.bindings@.len() as int)
    }
}

impl Env {
    pub fn new() -> (r: Env)
        ensures
            r@ == Map::<Seq<char>, i64>::empty(),
    {
        Env { bindings: Vec::new() }
    }

    /// Bind `name` to `value`.
    pub fn insert(&mut self, name: String, value: i64)
        ensures
            final(self)@ == old(self)@.insert(name@, value),
    {
        let ghost before = self.bindings@;
        self.bindings.push((name, value));
        proof {
            lemma_bound_prefix(self.bindings@, before, before.len() as int);
        }
    }

    /// The value of `name`; 0 if it is not bound.
    pub fn get(&self, name: &String) -> (r: i64)
        ensures
            r == lookup(self@, name@),
    {
        let mut i: usize = self.bindings.len();
        while i > 0
            invariant
                i <= self.bindings@.len(),
                lookup(self@, name@) == lookup(bound_upto(self.bindings@, i as int), name@),
            decreases i,
        {
            if self.bindings[i - 1].0 == *name {
                return self.bindings[i - 1].1;
            }
            i = i - 1;
        }
        0
    }
}

proof fn lemma_bound_prefix(x: Seq<(String, i64)>, y: Seq<(String, i64)>, k: int)
    requires
        0 <= k <= x.len(),
        k <= y.len(),
        forall|i: int| 0 <= i < k ==> x[i] == y[i],
    ensures
        bound_upto(x, k) == bound_upto(y, k),
    decreases k,
{
    if k > 0 {
        lemma_bound_prefix(x, y, k - 1);
    }
}

/// Bindings a value was computed from.
pub type Deps = Vec<(String, i64)>;

/// Bindings as names and values.
pub type DepsModel = Seq<(Seq<char>, i64)>;

/// The names and values of recorded bindings.
pub open spec fn deps_view(d: Seq<(String, i64)>) -> DepsModel {
    Seq::new(d.len(), |i: int| (d[i].0@, d[i].1))
}

/// Every recorded binding is that of `env`.
pub open spec fn holds(deps: DepsModel, env: Bindings) -> bool {
    forall|i: int| 0 <= i < deps.len() ==> lookup(env, (#[trigger] deps[i]).0) == deps[i].1
}

/// Wherever `deps` hold, `t` has value `v`.
pub open spec fn explains(t: Shape, v: i64, deps: DepsModel) -> bool {
    forall|env: Bindings| #[trigger] holds(deps, env) ==> value_of(t, env) == v
}

/// A binding of `name` is recorded.
pub open spec fn records(deps: DepsModel, name: Seq<char>) -> bool {
    exists|i: int| 0 <= i < deps.len() && (#[trigger] deps[i]).0 == name
}

/// `into` with the bindings of `from` whose names it does not have yet.
pub open spec fn merged(into: DepsModel, from: DepsModel) -> DepsModel
    decreases from.len(),
{
    if from.len() == 0 {
        into
    } else {
        let m = merged(into, from.drop_last());
        if records(m, from.last().0) {
            m
        } else {
            m.push(from.last())
        }
    }
}

/// The bindings an atom reads.
pub open spec fn atom_deps(s: Seq<char>, env: Bindings) -> DepsModel {
    match number(encode_utf8(s)) {
        Some(v) => Seq::empty(),
        None => seq![(s, lookup(env, s))],
    }
}

/// The value of an atom, with the binding it read.
fn atom_value(s: &String, env: &Env) -> (r: (i64, Deps))
    ensures
        r.0 == atom_meaning(s@, env@),
        deps_view(r.1@) == atom_deps(s@, env@),
{
    let mut deps: Deps = Vec::new();
    match parse_i64(s.as_str()) {
        Some(n) => {
            assert(deps_view(deps@) =~= atom_deps(s@, env@));
            (n, deps)
        },
        None => {
            let v: i64 = env.get(s);
            deps.push((s.clone(), v));
            assert(deps_view(deps@) =~= atom_deps(s@, env@));
            (v, deps)
        },
    }
}

fn copy_deps(d: &Deps) -> (r: Deps)
    ensures
        deps_view(r@) == deps_view(d@),
{
    let mut out: Deps = Vec::new();
    let mut i: usize = 0;
    while i < d.len()
        invariant
            i <= d@.len(),
            out@.len() == i,
            forall|k: int|
                0 <= k < i ==> (#[trigger] out@[k]).0@ == d@[k].0@ && out@[k].1 == d@[k].1,
        decreases d@.len() - i,
    {
        out.push((d[i].0.clone(), d[i].1));
        i = i + 1;
    }
    assert(deps_view(out@) =~= deps_view(d@));
    out
}

/// Whether a binding of `name` is recorded.
fn is_recorded(deps: &Deps, name: &String) -> (r: bool)
    ensures
        r == records(deps_view(deps@), name@),
{
    let mut j: usize = 0;
    while j < deps.len()
        invariant
            j <= deps@.len(),
            forall|k: int| 0 <= k < j ==> (#[trigger] deps_view(deps@)[k]).0 != name@,
        decreases deps@.len() - j,
    {
        if deps[j].0 == *name {
            assert(deps_view(deps@)[j as int].0 == name@);
            return true;
        }
        j = j + 1;
    }
    false
}

/// Add the bindings of `from` that `into` does not have yet.
fn merge_deps(into: &mut Deps, from: &Deps)
    ensures
        deps_view(final(into)@) == merged(deps_view(old(into)@), deps_view(from@)),
{
    let ghost f = deps_view(from@);
    let mut i: usize = 0;
    proof {
        assert(f.take(0) =~= Seq::<(Seq<char>, i64)>::empty());
    }
    while i < from.len()
        invariant
            i <= from@.len(),
            f == deps_view(from@),
            deps_view(into@) == merged(deps_view(old(into)@), f.take(i as int)),
        decreases from@.len() - i,
    {
        let ghost before = into@;
        proof {
            assert(f.take(i + 1).drop_last() =~= f.take(i as int));
            assert(f.take(i + 1).last() == f[i as int]);
        }
        if !is_recorded(into, &from[i].0) {
            into.push((from[i].0.clone(), from[i].1));
            assert(deps_view(into@) =~= deps_view(before).push(f[i as int]));
        }
        i = i + 1;
    }
    assert(f.take(from@.len() as int) =~= f);
}

/// Whether all recorded bindings are those of `env`.
fn deps_hold(deps: &Deps, env: &Env) -> (r: bool)
    ensures
        r == holds(deps_view(deps@), env@),
{
    let ghost d = deps_view(deps@);
    let mut i: usize = 0;
    while i < deps.len()
        invariant
            i <= deps@.len(),
            d == deps_view(deps@),
            forall|k: int| 0 <= k < i ==> lookup(env@, (#[trigger] d[k]).0) == d[k].1,
        decreases deps@.len() - i,
    {
        if env.get(&deps[i].0) != deps[i].1 {
            assert(lookup(env@, d[i as int].0) != d[i as int].1);
            return false;
        }
        i = i + 1;
    }
    true
}

// ---- The memo ----------------------------------------------------------

/// A remembered value and the bindings it was computed from.
pub struct MemoEntry {
    pub id: u64,
    pub value: i64,
    pub deps: Deps,
}

/// Remembered values by node identity.
pub struct Memo {
    index: FxHashMap<u64, usize>,
    slots: Vec<MemoEntry>,
}

/// Values and bindings by node identity.
pub type MemoModel = Map<u64, (i64, DepsModel)>;

impl View for Memo {
    type V = MemoModel;

    closed spec fn view(&self) -> MemoModel {
        Map::new(
            |id: u64| entries(self.index).contains_key(id),
            |id: u64|
                {
                    let e = self.slots@[entries(self.index)[id] as int];
                    (e.value, deps_view(e.deps@))
                },
        )
    }
}

/// The identities of the entries.
spec fn slot_ids(v: Seq<MemoEntry>) -> Seq<u64> {
    Seq::new(v.len(), |i: int| v[i].id)
}

impl Memo {
    pub closed spec fn wf(&self) -> bool {
        &&& forall|id: u64| #[trigger]
            entries(self.index).contains_key(id) ==> entries(self.index)[id] < self.slots@.len()
                && self.slots@[entries(self.index)[id] as int].id == id
        &&& forall|i: int|
            0 <= i < self.slots@.len() ==> entries(self.index).contains_key(
                (#[trigger] self.slots@[i]).id,
            ) && entries(self.index)[self.slots@[i].id] == i
    }

    fn new() -> (r: Memo)
        ensures
            r.wf(),
            r@ == Map::<u64, (i64, DepsModel)>::empty(),
    {
        let r = Memo { index: index_new(), slots: Vec::new() };
        assert(r@ =~= Map::<u64, (i64, DepsModel)>::empty());
        r
    }

    fn len(&self) -> (r: usize)
        requires
            self.wf(),
        ensures
            r == self@.dom().len(),
            self@.dom().finite(),
    {
        proof {
            let ids = slot_ids(self.slots@);
            assert forall|i: int, j: int| 0 <= i < ids.len() && 0 <= j < ids.len() && i != j implies ids[i]
                != ids[j] by {
                assert(entries(self.index)[self.slots@[i].id] == i);
                assert(entries(self.index)[self.slots@[j].id] == j);
            }
            ids.unique_seq_to_set();
            assert forall|id: u64| self@.dom().contains(id) <==> ids.to_set().contains(id) by {
                if self@.dom().contains(id) {
                    let k = entries(self.index)[id] as int;
                    assert(ids[k] == id);
                }
                if ids.to_set().contains(id) {
                    let k = choose|k: int| 0 <= k < ids.len() && ids[k] == id;
                    assert(self.slots@[k].id == id);
                }
            }
            assert(self@.dom() =~= ids.to_set());
        }
        self.slots.len()
    }

    fn get(&self, id: u64) -> (r: Option<&MemoEntry>)
        requires
            self.wf(),
        ensures
            match r {
                Some(e) => self@.contains_key(id) && self@[id] == (e.value, deps_view(e.deps@)),
                None => !self@.contains_key(id),
            },
    {
        match index_get(&self.index, id) {
            Some(i) => Some(&self.slots[i]),
            None => None,
        }
    }

    /// Remember `e`, in place of what was remembered of its identity.
    fn put(&mut self, e: MemoEntry)
        requires
            old(self).wf(),
        ensures
            final(self).wf(),
            final(self)@ == old(self)@.insert(e.id, (e.value, deps_view(e.deps@))),
    {
        let id: u64 = e.id;
        let ghost before = *self;
        match index_get(&self.index, id) {
            Some(i) => {
                self.slots.set(i, e);
                proof {
                    assert forall|k: u64| #[trigger] entries(self.index).contains_key(k) && k != id implies entries(
                        self.index,
                    )[k] != i by {}
                }
            },
            None => {
                let i: usize = self.slots.len();
                self.slots.push(e);
                index_insert(&mut self.index, id, i);
                proof {
                    assert forall|k: int| 0 <= k < self.slots@.len() implies entries(
                        self.index,
                    ).contains_key((#[trigger] self.slots@[k]).id) && entries(self.index)[self.slots@[k].id]
                        == k by {
                        if k < i {
                            assert(self.slots@[k] == before.slots@[k]);
                        }
                    }
                }
            },
        }
        assert(self@ =~= before@.insert(id, (e.value, deps_view(e.deps@))));
    }

    /// Keep what is remembered of the identities in `live`.
    fn retain(self, live: &FxHashMap<u64, usize>) -> (r: Memo)
        requires
            self.wf(),
        ensures
            r.wf(),
            r@ == self@.restrict(entries(*live).dom()),
    {
        let ghost all = self.slots@;
        let ghost ix = entries(self.index);
        let ghost me = self;
        let mut rest = self.slots;
        let mut out = Memo::new();
        while rest.len() > 0
            invariant
                me.wf(),
                all == me.slots@,
                ix == entries(me.index),
                rest@.len() <= all.len(),
                rest@ == all.take(rest@.len() as int),
                out.wf(),
                forall|id: u64| #[trigger]
                    out@.contains_key(id) <==> entries(*live).contains_key(id) && ix.contains_key(id)
                        && ix[id] >= rest@.len(),
                forall|id: u64| #[trigger] out@.contains_key(id) ==> out@[id] == me@[id],
            decreases rest@.len(),
        {
            let ghost k = rest@.len() - 1;
            if let Some(e) = rest.pop() {
                proof {
                    assert(rest@ =~= all.take(k));
                    assert(e == all[k]);
                    assert(ix[e.id] == k);
                    assert(me@[e.id] == (e.value, deps_view(e.deps@)));
                }
                if index_get(live, e.id).is_some() {
                    out.put(e);
                }
            }
        }
        assert(out@ =~= me@.restrict(entries(*live).dom()));
        out
    }
}

// ---- Evaluation --------------------------------------------------------

/// What an evaluation gives: a value, the bindings it was computed from, what
/// is remembered afterwards, and how many nodes were evaluated and reused.
pub ghost struct Outcome {
    pub value: i64,
    pub deps: DepsModel,
    pub memo: MemoModel,
    pub recomputed: nat,
    pub reused: nat,
}

/// Nothing evaluated yet.
pub open spec fn begin(memo: MemoModel) -> Outcome {
    Outcome { value: 0, deps: Seq::empty(), memo, recomputed: 0, reused: 0 }
}

/// `b`, after `a`.
pub open spec fn after(a: Outcome, b: Outcome) -> Outcome {
    Outcome {
        value: b.value,
        deps: merged(a.deps, b.deps),
        memo: b.memo,
        recomputed: a.recomputed + b.recomputed,
        reused: a.reused + b.reused,
    }
}

pub open spec fn with_value(a: Outcome, value: i64) -> Outcome {
    Outcome { value, ..a }
}

/// Evaluation of `n` under `env`, given what is remembered: a remembered value
/// is used while its bindings hold, else the node is evaluated from its
/// children, in order, and remembered; one without identity is not.
pub open spec fn evaluated(memo: MemoModel, n: Node, env: Bindings) -> Outcome
    decreases n, 1int,
{
    let id = n.id.0;
    if id == 0 {
        let r = computed(memo, n, env);
        Outcome { recomputed: r.recomputed + 1, ..r }
    } else if memo.contains_key(id) && holds(memo[id].1, env) {
        Outcome { value: memo[id].0, deps: memo[id].1, memo, recomputed: 0, reused: 1 }
    } else {
        let r = computed(memo, n, env);
        Outcome { memo: r.memo.insert(id, (r.value, r.deps)), recomputed: r.recomputed + 1, ..r }
    }
}

/// Evaluation of `n` from its children.
pub open spec fn computed(memo: MemoModel, n: Node, env: Bindings) -> Outcome
    decreases n, 0int,
{
    match n.kind {
        NodeKind::Atom(s) => Outcome {
            value: atom_meaning(s@, env),
            deps: atom_deps(s@, env),
            memo,
            recomputed: 0,
            reused: 0,
        },
        NodeKind::Prefix { op, child } => {
            let a = after(begin(memo), evaluated(memo, *child, env));
            with_value(a, prefix_value(op, a.value))
        },
        NodeKind::Binary { op, left, right } => {
            let a = after(begin(memo), evaluated(memo, *left, env));
            let b = after(a, evaluated(a.memo, *right, env));
            with_value(b, binary_value(op, a.value, b.value))
        },
        NodeKind::Ternary { cond, then, else_ } => {
            let a = after(begin(memo), evaluated(memo, *cond, env));
            let b = after(a, evaluated(a.memo, *then, env));
            let c = after(b, evaluated(b.memo, *else_, env));
            with_value(
                c,
                if a.value != 0 {
                    b.value
                } else {
                    c.value
                },
            )
        },
        NodeKind::Paren { inner } => after(begin(memo), evaluated(memo, *inner, env)),
        NodeKind::Call { callee, args } => {
            let a = after(begin(memo), evaluated(memo, *callee, env));
            with_value(evaluated_args(a, args@, args@.len() as int, env), a.value)
        },
        NodeKind::Index { array, index } => {
            let a = after(begin(memo), evaluated(memo, *array, env));
            let b = after(a, evaluated(a.memo, *index, env));
            with_value(b, a.value.wrapping_add(b.value))
        },
        NodeKind::Member { object, field } => after(begin(memo), evaluated(memo, *object, env)),
        NodeKind::Missing => begin(memo),
        NodeKind::Error { skipped } => begin(memo),
    }
}

/// Evaluation of the first `k` arguments, after `a`.
pub open spec fn evaluated_args(a: Outcome, args: Seq<Arc<Node>>, k: int, env: Bindings) -> Outcome
    decreases args, k,
{
    if 0 < k <= args.len() {
        let b = evaluated_args(a, args, k - 1, env);
        after(b, evaluated(b.memo, *args[k - 1], env))
    } else {
        a
    }
}

/// The bindings recorded by an evaluation.
pub open spec fn deps_of(memo: MemoModel, n: Arc<Node>, env: Bindings) -> DepsModel {
    evaluated(memo, *n, env).deps
}

/// Evaluation of `n`, after `a`.
pub open spec fn next(a: Outcome, n: Arc<Node>, env: Bindings) -> Outcome {
    after(a, evaluated(a.memo, *n, env))
}

/// The identities of the nodes of a tree.
pub open spec fn identities(n: Node) -> Set<u64> {
    Set::new(|id: u64| occurs(n, id))
}

/// Evaluates trees, remembering values and the bindings they depend on.
pub struct ContextEvaluator {
    pub memo: Memo,
    pub gc_threshold: usize,
    /// Nodes evaluated by the last call.
    pub recomputed: usize,
    /// Remembered values used by the last call.
    pub reused: usize,
}

/// `n`, or the largest count there is.
pub open spec fn capped(n: nat) -> nat {
    if n > usize::MAX {
        usize::MAX as nat
    } else {
        n
    }
}

/// A memo that has outgrown the threshold is collected.
pub open spec fn outgrown(memo: MemoModel, threshold: usize) -> bool {
    memo.dom().len() > threshold && memo.dom().len() > GC_FLOOR
}

/// The memo after collection, where it has outgrown the threshold: what is
/// remembered of the nodes of `n`.
pub open spec fn swept(memo: MemoModel, threshold: usize, n: Node) -> MemoModel {
    if outgrown(memo, threshold) {
        memo.restrict(identities(n))
    } else {
        memo
    }
}

impl ContextEvaluator {
    pub open spec fn wf(&self) -> bool {
        self.memo.wf()
    }

    pub fn new() -> (r: ContextEvaluator)
        ensures
            r.wf(),
            r.memo@ == Map::<u64, (i64, DepsModel)>::empty(),
            r.gc_threshold == 0,
            r.recomputed == 0,
            r.reused == 0,
    {
        ContextEvaluator { memo: Memo::new(), gc_threshold: 0, recomputed: 0, reused: 0 }
    }

    /// Number of values remembered.
    pub fn memo_len(&self) -> (r: usize)
        requires
            self.wf(),
        ensures
            r == self.memo@.dom().len(),
    {
        self.memo.len()
    }

    /// The value of `node` under `env`, from what is remembered where the
    /// bindings it was computed from still hold.
    pub fn eval(&mut self, node: &Arc<Node>, env: &Env) -> (r: i64)
        requires
            old(self).wf(),
        ensures
            final(self).wf(),
            r == evaluated(old(self).memo@, **node, env@).value,
            final(self).recomputed == capped(evaluated(old(self).memo@, **node, env@).recomputed),
            final(self).reused == capped(evaluated(old(self).memo@, **node, env@).reused),
            final(self).memo@ == swept(
                evaluated(old(self).memo@, **node, env@).memo,
                old(self).gc_threshold,
                **node,
            ),
            final(self).gc_threshold == (if outgrown(
                evaluated(old(self).memo@, **node, env@).memo,
                old(self).gc_threshold,
            ) {
                capped(2 * final(self).memo@.dom().len())
            } else {
                old(self).gc_threshold as nat
            }),
    {
        self.recomputed = 0;
        self.reused = 0;
        let (v, _) = self.eval_inner(node, env);
        let n: usize = self.memo.len();
        if n > self.gc_threshold && n > GC_FLOOR {
            let mut live: FxHashMap<u64, usize> = index_new();
            collect_reachable(node, &mut live);
            assert(entries(live).dom() =~= identities(**node));
            let mut old_memo = Memo::new();
            std::mem::swap(&mut old_memo, &mut self.memo);
            let kept = old_memo.retain(&live);
            let m: usize = kept.len();
            self.memo = kept;
            self.gc_threshold = m.saturating_add(m);
        }
        v
    }

    /// The value of `node` and the bindings it was computed from.
    fn eval_inner(&mut self, node: &Arc<Node>, env: &Env) -> (r: (i64, Deps))
        requires
            old(self).wf(),
        ensures
            stepped(*old(self), *final(self), evaluated(old(self).memo@, **node, env@)),
            r.0 == evaluated(old(self).memo@, **node, env@).value,
            deps_view(r.1@) == evaluated(old(self).memo@, **node, env@).deps,
        decreases node, 2int,
    {
        let id: u64 = node.id.0;
        if id != 0 {
            if let Some(e) = self.memo.get(id) {
                if deps_hold(&e.deps, env) {
                    let deps = copy_deps(&e.deps);
                    let v: i64 = e.value;
                    self.reused = self.reused.saturating_add(1);
                    return (v, deps);
                }
            }
        }
        self.recomputed = self.recomputed.saturating_add(1);
        let (v, deps) = self.combine(node, env);
        if id == 0 {
            return (v, deps);
        }
        let stored = copy_deps(&deps);
        self.memo.put(MemoEntry { id, value: v, deps: stored });
        (v, deps)
    }

    /// Evaluate a child, keeping the bindings read so far.
    fn child(&mut self, node: &Arc<Node>, env: &Env, deps: &mut Deps, Ghost(a): Ghost<Outcome>) -> (r:
        i64)
        requires
            old(self).wf(),
            old(self).memo@ == a.memo,
            deps_view(old(deps)@) == a.deps,
        ensures
            stepped(*old(self), *final(self), evaluated(a.memo, **node, env@)),
            r == after(a, evaluated(a.memo, **node, env@)).value,
            deps_view(final(deps)@) == after(a, evaluated(a.memo, **node, env@)).deps,
        decreases node, 3int,
    {
        let (v, d) = self.eval_inner(node, env);
        merge_deps(deps, &d);
        v
    }

    /// Evaluate the arguments of a call, for the bindings they read.
    fn arguments(
        &mut self,
        args: &Vec<Arc<Node>>,
        env: &Env,
        deps: &mut Deps,
        Ghost(a): Ghost<Outcome>,
    )
        requires
            old(self).wf(),
            old(self).memo@ == a.memo,
            deps_view(old(deps)@) == a.deps,
        ensures
            final(self).wf(),
            final(self).gc_threshold == old(self).gc_threshold,
            ({
                let b = evaluated_args(a, args@, args@.len() as int, env@);
                &&& b.recomputed >= a.recomputed
                &&& b.reused >= a.reused
                &&& final(self).memo@ == b.memo
                &&& deps_view(final(deps)@) == b.deps
                &&& final(self).recomputed == capped(
                    (old(self).recomputed + b.recomputed - a.recomputed) as nat,
                )
                &&& final(self).reused == capped((old(self).reused + b.reused - a.reused) as nat)
            }),
        decreases args, 0int,
    {
        let mut i: usize = 0;
        while i < args.len()
            invariant
                i <= args@.len(),
                self.wf(),
                self.gc_threshold == old(self).gc_threshold,
                ({
                    let b = evaluated_args(a, args@, i as int, env@);
                    &&& b.recomputed >= a.recomputed
                    &&& b.reused >= a.reused
                    &&& self.memo@ == b.memo
                    &&& deps_view(deps@) == b.deps
                    &&& self.recomputed == capped(
                        (old(self).recomputed + b.recomputed - a.recomputed) as nat,
                    )
                    &&& self.reused == capped((old(self).reused + b.reused - a.reused) as nat)
                }),
            decreases args@.len() - i,
        {
            let ghost b = evaluated_args(a, args@, i as int, env@);
            let _ = self.child(&args[i], env, deps, Ghost(b));
            i = i + 1;
        }
    }

    /// Evaluate `node` from its children.
    #[verifier::rlimit(40)]
    fn combine(&mut self, node: &Arc<Node>, env: &Env) -> (r: (i64, Deps))
        requires
            old(self).wf(),
        ensures
            stepped(*old(self), *final(self), computed(old(self).memo@, **node, env@)),
            r.0 == computed(old(self).memo@, **node, env@).value,
            deps_view(r.1@) == computed(old(self).memo@, **node, env@).deps,
        decreases node, 1int,
    {
        let mut deps: Deps = Vec::new();
        let ghost o = begin(self.memo@);
        assert(deps_view(deps@) =~= o.deps);
        match &node.kind {
            NodeKind::Atom(s) => atom_value(s, env),
            NodeKind::Prefix { op, child } => {
                let x: i64 = self.child(child, env, &mut deps, Ghost(o));
                (apply_prefix(*op, x), deps)
            },
            NodeKind::Binary { op, left, right } => {
                let x: i64 = self.child(left, env, &mut deps, Ghost(o));
                let ghost a = next(o, *left, env@);
                let y: i64 = self.child(right, env, &mut deps, Ghost(a));
                (apply_binary(*op, x, y), deps)
            },
            NodeKind::Ternary { cond, then, else_ } => {
                let x: i64 = self.child(cond, env, &mut deps, Ghost(o));
                let ghost a = next(o, *cond, env@);
                let y: i64 = self.child(then, env, &mut deps, Ghost(a));
                let ghost b = next(a, *then, env@);
                let z: i64 = self.child(else_, env, &mut deps, Ghost(b));
                (
                    if x != 0 {
                        y
                    } else {
                        z
                    },
                    deps,
                )
            },
            NodeKind::Paren { inner } => {
                let x: i64 = self.child(inner, env, &mut deps, Ghost(o));
                (x, deps)
            },
            NodeKind::Call { callee, args } => {
                let x: i64 = self.child(callee, env, &mut deps, Ghost(o));
                let ghost a = next(o, *callee, env@);
                self.arguments(args, env, &mut deps, Ghost(a));
                (x, deps)
            },
            NodeKind::Index { array, index } => {
                let x: i64 = self.child(array, env, &mut deps, Ghost(o));
                let ghost a = next(o, *array, env@);
                let y: i64 = self.child(index, env, &mut deps, Ghost(a));
                (x.wrapping_add(y), deps)
            },
            NodeKind::Member { object, field: _ } => {
                let x: i64 = self.child(object, env, &mut deps, Ghost(o));
                (x, deps)
            },
            NodeKind::Missing => (0, deps),
            NodeKind::Error { skipped: _ } => (0, deps),
        }
    }
}

/// One evaluation took the evaluator from `x` to `y`.
pub open spec fn stepped(x: ContextEvaluator, y: ContextEvaluator, o: Outcome) -> bool {
    &&& y.wf()
    &&& y.memo@ == o.memo
    &&& y.gc_threshold == x.gc_threshold
    &&& y.recomputed == capped(x.recomputed as nat + o.recomputed)
    &&& y.reused == capped(x.reused as nat + o.reused)
}

/// Evaluate without anything remembered. Of a tree as parsed, this is its value.
pub fn eval_ctx_fresh(node: &Arc<Node>, env: &Env) -> (r: i64)
    ensures
        r == evaluated(Map::empty(), **node, env@).value,
        forall|names: spec_fn(u64) -> Shape| #[trigger] named(**node, names) ==> r == value_of(
            node@,
            env@,
        ),
        forall|lo: u64, hi: u64| #[trigger]
            minted(None::<&ReuseCache>, &**node, lo, hi) ==> r == value_of(node@, env@),
{
    let mut e = ContextEvaluator::new();
    let r: i64 = e.eval(node, env);
    proof {
        assert forall|names: spec_fn(u64) -> Shape| #[trigger] named(**node, names) implies r
            == value_of(node@, env@) by {
            law_context_sound(Map::empty(), *node, env@, names);
        }
        assert forall|lo: u64, hi: u64| #[trigger]
            minted(None::<&ReuseCache>, &**node, lo, hi) implies r == value_of(node@, env@) by {
            reveal(from_cache);
            let names = |id: u64| node@;
            law_identities_name(None, &**node, lo, hi, names);
        }
    }
    r
}

// ---- Collection --------------------------------------------------------

/// The arguments hold a node with identity `id`.
pub open spec fn occurs_among(args: Seq<Arc<Node>>, k: int, id: u64) -> bool {
    exists|i: int| 0 <= i < k && occurs(*(#[trigger] args[i]), id)
}

/// Add the identities of all nodes of the tree.
fn collect_reachable(node: &Arc<Node>, out: &mut FxHashMap<u64, usize>)
    ensures
        forall|id: u64| #[trigger]
            entries(*final(out)).contains_key(id) <==> entries(*old(out)).contains_key(id) || occurs(
                **node,
                id,
            ),
    decreases node, 1int,
{
    index_insert(out, node.id.0, 0);
    match &node.kind {
        NodeKind::Prefix { op: _, child } => collect_reachable(child, out),
        NodeKind::Binary { op: _, left, right } => {
            collect_reachable(left, out);
            collect_reachable(right, out);
        },
        NodeKind::Ternary { cond, then, else_ } => {
            collect_reachable(cond, out);
            collect_reachable(then, out);
            collect_reachable(else_, out);
        },
        NodeKind::Paren { inner } => collect_reachable(inner, out),
        NodeKind::Call { callee, args } => {
            collect_reachable(callee, out);
            collect_args(args, out);
        },
        NodeKind::Index { array, index } => {
            collect_reachable(array, out);
            collect_reachable(index, out);
        },
        NodeKind::Member { object, field: _ } => collect_reachable(object, out),
        _ => {},
    }
}

fn collect_args(args: &Vec<Arc<Node>>, out: &mut FxHashMap<u64, usize>)
    ensures
        forall|id: u64| #[trigger]
            entries(*final(out)).contains_key(id) <==> entries(*old(out)).contains_key(id)
                || occurs_among(args@, args@.len() as int, id),
    decreases args, 0int,
{
    let mut i: usize = 0;
    while i < args.len()
        invariant
            i <= args@.len(),
            forall|id: u64| #[trigger]
                entries(*out).contains_key(id) <==> entries(*old(out)).contains_key(id)
                    || occurs_among(args@, i as int, id),
        decreases args@.len() - i,
    {
        let ghost before = *out;
        collect_reachable(&args[i], out);
        proof {
            assert forall|id: u64| #[trigger] entries(*out).contains_key(id) <==> entries(
                *old(out),
            ).contains_key(id) || occurs_among(args@, i + 1, id) by {
                assert(entries(before).contains_key(id) <==> entries(*old(out)).contains_key(id)
                    || occurs_among(args@, i as int, id));
                if occurs_among(args@, i + 1, id) {
                    let k = choose|k: int| 0 <= k < i + 1 && occurs(*(#[trigger] args@[k]), id);
                    if k < i {
                        assert(occurs_among(args@, i as int, id));
                    }
                }
                if occurs_among(args@, i as int, id) {
                    let k = choose|k: int| 0 <= k < i && occurs(*(#[trigger] args@[k]), id);
                    assert(occurs(*args@[k], id));
                }
            }
        }
        i = i + 1;
    }
}

// ---- Keyed on identity alone -------------------------------------------

/// Remembers values by identity, whatever they were computed from.
pub struct NaiveNodeIdEvaluator {
    index: FxHashMap<u64, usize>,
    values: Vec<i64>,
}

/// Evaluation with values remembered by identity: the value, and what is
/// remembered afterwards.
pub open spec fn naive(memo: Map<u64, i64>, n: Node, env: Bindings) -> (i64, Map<u64, i64>)
    decreases n, 1int,
{
    if n.id.0 != 0 && memo.contains_key(n.id.0) {
        (memo[n.id.0], memo)
    } else {
        let r = match n.kind {
            NodeKind::Atom(s) => (atom_meaning(s@, env), memo),
            NodeKind::Prefix { op, child } => {
                let a = naive(memo, *child, env);
                (prefix_value(op, a.0), a.1)
            },
            NodeKind::Binary { op, left, right } => {
                let a = naive(memo, *left, env);
                let b = naive(a.1, *right, env);
                (binary_value(op, a.0, b.0), b.1)
            },
            NodeKind::Ternary { cond, then, else_ } => {
                let a = naive(memo, *cond, env);
                let b = naive(a.1, *then, env);
                let c = naive(b.1, *else_, env);
                (if a.0 != 0 {
                    b.0
                } else {
                    c.0
                }, c.1)
            },
            NodeKind::Paren { inner } => naive(memo, *inner, env),
            NodeKind::Call { callee, args } => {
                let a = naive(memo, *callee, env);
                (a.0, naive_args(a.1, args@, args@.len() as int, env))
            },
            NodeKind::Index { array, index } => {
                let a = naive(memo, *array, env);
                let b = naive(a.1, *index, env);
                (a.0.wrapping_add(b.0), b.1)
            },
            NodeKind::Member { object, field } => naive(memo, *object, env),
            NodeKind::Missing => (0, memo),
            NodeKind::Error { skipped } => (0, memo),
        };
        if n.id.0 == 0 {
            r
        } else {
            (r.0, r.1.insert(n.id.0, r.0))
        }
    }
}

/// What is remembered after the first `k` arguments.
pub open spec fn naive_args(
    memo: Map<u64, i64>,
    args: Seq<Arc<Node>>,
    k: int,
    env: Bindings,
) -> Map<u64, i64>
    decreases args, k,
{
    if 0 < k <= args.len() {
        naive(naive_args(memo, args, k - 1, env), *args[k - 1], env).1
    } else {
        memo
    }
}

impl NaiveNodeIdEvaluator {
    pub closed spec fn wf(&self) -> bool {
        forall|id: u64| #[trigger]
            entries(self.index).contains_key(id) ==> entries(self.index)[id] < self.values@.len()
    }

    /// The values remembered.
    pub closed spec fn memo(&self) -> Map<u64, i64> {
        Map::new(
            |id: u64| entries(self.index).contains_key(id),
            |id: u64| self.values@[entries(self.index)[id] as int],
        )
    }

    pub fn new() -> (r: NaiveNodeIdEvaluator)
        ensures
            r.wf(),
            r.memo() == Map::<u64, i64>::empty(),
    {
        let r = NaiveNodeIdEvaluator { index: index_new(), values: Vec::new() };
        assert(r.memo() =~= Map::<u64, i64>::empty());
        r
    }

    fn remember(&mut self, id: u64, v: i64)
        requires
            old(self).wf(),
        ensures
            final(self).wf(),
            final(self).memo() == old(self).memo().insert(id, v),
    {
        let i: usize = self.values.len();
        self.values.push(v);
        index_insert(&mut self.index, id, i);
        assert(self.memo() =~= old(self).memo().insert(id, v));
    }

    /// The value remembered for the node's identity, else its value under
    /// `env`. A binding that changes goes unnoticed.
    pub fn eval(&mut self, node: &Arc<Node>, env: &Env) -> (r: i64)
        requires
            old(self).wf(),
        ensures
            final(self).wf(),
            (r, final(self).memo()) == naive(old(self).memo(), **node, env@),
        decreases node, 1int,
    {
        if node.id.0 != 0 {
            if let Some(i) = index_get(&self.index, node.id.0) {
                return self.values[i];
            }
        }
        let v: i64 = match &node.kind {
            NodeKind::Atom(s) => {
                let (x, _) = atom_value(s, env);
                x
            },
            NodeKind::Prefix { op, child } => {
                let a: i64 = self.eval(child, env);
                apply_prefix(*op, a)
            },
            NodeKind::Binary { op, left, right } => {
                let a: i64 = self.eval(left, env);
                let b: i64 = self.eval(right, env);
                apply_binary(*op, a, b)
            },
            NodeKind::Ternary { cond, then, else_ } => {
                let a: i64 = self.eval(cond, env);
                let b: i64 = self.eval(then, env);
                let c: i64 = self.eval(else_, env);
                if a != 0 {
                    b
                } else {
                    c
                }
            },
            NodeKind::Paren { inner } => self.eval(inner, env),
            NodeKind::Call { callee, args } => {
                let a: i64 = self.eval(callee, env);
                self.eval_args(args, env);
                a
            },
            NodeKind::Index { array, index } => {
                let a: i64 = self.eval(array, env);
                let b: i64 = self.eval(index, env);
                a.wrapping_add(b)
            },
            NodeKind::Member { object, field: _ } => self.eval(object, env),
            NodeKind::Missing => 0,
            NodeKind::Error { skipped: _ } => 0,
        };
        if node.id.0 != 0 {
            self.remember(node.id.0, v);
        }
        v
    }

    fn eval_args(&mut self, args: &Vec<Arc<Node>>, env: &Env)
        requires
            old(self).wf(),
        ensures
            final(self).wf(),
            final(self).memo() == naive_args(old(self).memo(), args@, args@.len() as int, env@),
        decreases args, 0int,
    {
        let mut i: usize = 0;
        while i < args.len()
            invariant
                i <= args@.len(),
                self.wf(),
                self.memo() == naive_args(old(self).memo(), args@, i as int, env@),
            decreases args@.len() - i,
        {
            let _ = self.eval(&args[i], env);
            i = i + 1;
        }
    }
}

// ---- Laws --------------------------------------------------------------

/// Every node of the tree that has an identity has the shape `names` gives it.
pub open spec fn named(n: Node, names: spec_fn(u64) -> Shape) -> bool
    decreases n,
{
    &&& n.id.0 != 0 ==> names(n.id.0) == n@
    &&& match n.kind {
        NodeKind::Atom(s) => true,
        NodeKind::Prefix { op, child } => named(*child, names),
        NodeKind::Binary { op, left, right } => named(*left, names) && named(*right, names),
        NodeKind::Ternary { cond, then, else_ } => named(*cond, names) && named(*then, names)
            && named(*else_, names),
        NodeKind::Paren { inner } => named(*inner, names),
        NodeKind::Call { callee, args } => named(*callee, names) && forall|i: int|
            0 <= i < args@.len() ==> named(*(#[trigger] args@[i]), names),
        NodeKind::Index { array, index } => named(*array, names) && named(*index, names),
        NodeKind::Member { object, field } => named(*object, names),
        NodeKind::Missing => true,
        NodeKind::Error { skipped } => true,
    }
}

/// Some node of the tree is an atom that reads `name`.
pub open spec fn reads(t: Shape, name: Seq<char>) -> bool
    decreases t,
{
    match t.kind {
        ShapeKind::Atom(s) => s == name && number(encode_utf8(s)) is None,
        ShapeKind::Prefix { op, child } => reads(*child, name),
        ShapeKind::Binary { op, left, right } => reads(*left, name) || reads(*right, name),
        ShapeKind::Ternary { cond, then, else_ } => reads(*cond, name) || reads(*then, name) || reads(
            *else_,
            name,
        ),
        ShapeKind::Paren { inner } => reads(*inner, name),
        ShapeKind::Call { callee, args } => reads(*callee, name) || exists|i: int|
            0 <= i < args.len() && reads(#[trigger] args[i], name),
        ShapeKind::Index { array, index } => reads(*array, name) || reads(*index, name),
        ShapeKind::Member { object, field } => reads(*object, name),
        ShapeKind::Missing => false,
        ShapeKind::Error { skipped } => false,
    }
}

/// Every recorded binding is one that `t` reads.
pub open spec fn only_reads(deps: DepsModel, t: Shape) -> bool {
    forall|i: int| 0 <= i < deps.len() ==> reads(t, (#[trigger] deps[i]).0)
}

/// Every value remembered is that of the subtree its identity names, wherever
/// its bindings hold, and its bindings are ones that the subtree reads.
pub open spec fn sound(memo: MemoModel, names: spec_fn(u64) -> Shape) -> bool {
    forall|id: u64| #[trigger]
        memo.contains_key(id) ==> explains(names(id), memo[id].0, memo[id].1) && only_reads(
            memo[id].1,
            names(id),
        )
}

/// What evaluating `t` may give.
pub open spec fn faithful(t: Shape, o: Outcome, env: Bindings, names: spec_fn(u64) -> Shape) -> bool {
    &&& o.value == value_of(t, env)
    &&& holds(o.deps, env)
    &&& explains(t, o.value, o.deps)
    &&& only_reads(o.deps, t)
    &&& sound(o.memo, names)
}

proof fn lemma_merged(x: DepsModel, y: DepsModel, env: Bindings)
    requires
        holds(x, env),
        holds(y, env),
    ensures
        holds(merged(x, y), env),
        forall|e: Bindings| #[trigger] holds(merged(x, y), e) ==> holds(x, e) && holds(y, e),
        forall|t: Shape| only_reads(x, t) && only_reads(y, t) ==> #[trigger] only_reads(
            merged(x, y),
            t,
        ),
    decreases y.len(),
{
    if y.len() > 0 {
        let w = y.drop_last();
        let m = merged(x, w);
        assert forall|i: int| 0 <= i < w.len() implies lookup(env, (#[trigger] w[i]).0) == w[i].1 by {
            assert(w[i] == y[i]);
        }
        lemma_merged(x, w, env);
        let r = merged(x, y);
        assert(y.last() == y[y.len() - 1]);
        assert forall|e: Bindings| #[trigger] holds(r, e) implies holds(x, e) && holds(y, e) by {
            assert forall|i: int| 0 <= i < m.len() implies lookup(e, (#[trigger] m[i]).0) == m[i].1 by {
                assert(r[i] == m[i]);
            }
            assert(holds(m, e));
            assert forall|i: int| 0 <= i < y.len() implies lookup(e, (#[trigger] y[i]).0) == y[i].1 by {
                if i < w.len() {
                    assert(w[i] == y[i]);
                } else if records(m, y.last().0) {
                    let k = choose|k: int| 0 <= k < m.len() && (#[trigger] m[k]).0 == y.last().0;
                    assert(lookup(env, m[k].0) == m[k].1);
                    assert(lookup(e, m[k].0) == m[k].1);
                } else {
                    assert(r[m.len() as int] == y.last());
                }
            }
        }
        assert forall|t: Shape| only_reads(x, t) && only_reads(y, t) implies #[trigger] only_reads(r, t) by {
            assert forall|i: int| 0 <= i < w.len() implies reads(t, (#[trigger] w[i]).0) by {
                assert(w[i] == y[i]);
            }
            assert(only_reads(m, t));
            assert forall|i: int| 0 <= i < r.len() implies reads(t, (#[trigger] r[i]).0) by {
                if i < m.len() {
                    assert(r[i] == m[i]);
                }
            }
        }
        assert forall|i: int| 0 <= i < r.len() implies lookup(env, (#[trigger] r[i]).0) == r[i].1 by {
            if i < m.len() {
                assert(r[i] == m[i]);
            }
        }
    }
}

/// Bindings gathered from children: `a` before, then those of `n`.
proof fn lemma_next(a: Outcome, n: Arc<Node>, t: Shape, env: Bindings, names: spec_fn(u64) -> Shape)
    requires
        holds(a.deps, env),
        only_reads(a.deps, t),
        faithful(n@, evaluated(a.memo, *n, env), env, names),
        forall|name: Seq<char>| #[trigger] reads(n@, name) ==> reads(t, name),
    ensures
        followed(a, n, t, env, names),
{
    let c = next(a, n, env);
    assert(c.deps == merged(a.deps, evaluated(a.memo, *n, env).deps));
    lemma_merged(a.deps, deps_of(a.memo, n, env), env);
    assert(only_reads(evaluated(a.memo, *n, env).deps, t));
}

/// What holds of evaluating `n` on the way to evaluating `t`.
pub open spec fn followed(
    a: Outcome,
    n: Arc<Node>,
    t: Shape,
    env: Bindings,
    names: spec_fn(u64) -> Shape,
) -> bool {
    let c = next(a, n, env);
    &&& holds(c.deps, env)
    &&& only_reads(c.deps, t)
    &&& forall|e: Bindings| #[trigger]
        holds(c.deps, e) ==> holds(a.deps, e) && value_of(n@, e) == c.value
    &&& sound(c.memo, names)
    &&& c.value == value_of(n@, env)
}

proof fn lemma_args_sound(
    a: Outcome,
    args: Seq<Arc<Node>>,
    k: int,
    env: Bindings,
    names: spec_fn(u64) -> Shape,
    t: Shape,
)
    requires
        0 <= k <= args.len(),
        holds(a.deps, env),
        only_reads(a.deps, t),
        sound(a.memo, names),
        forall|i: int| 0 <= i < args.len() ==> named(*(#[trigger] args[i]), names),
        forall|i: int, name: Seq<char>|
            0 <= i < args.len() && #[trigger] reads(args[i]@, name) ==> reads(t, name),
    ensures
        ({
            let b = evaluated_args(a, args, k, env);
            &&& holds(b.deps, env)
            &&& only_reads(b.deps, t)
            &&& sound(b.memo, names)
            &&& forall|e: Bindings| #[trigger] holds(b.deps, e) ==> holds(a.deps, e)
        }),
    decreases args, k,
{
    if k > 0 {
        lemma_args_sound(a, args, k - 1, env, names, t);
        let b = evaluated_args(a, args, k - 1, env);
        lemma_sound(b.memo, args[k - 1], env, names);
        lemma_next(b, args[k - 1], t, env, names);
    }
}

proof fn lemma_child(
    a: Outcome,
    n: Arc<Node>,
    t: Shape,
    env: Bindings,
    names: spec_fn(u64) -> Shape,
)
    requires
        holds(a.deps, env),
        only_reads(a.deps, t),
        sound(a.memo, names),
        named(*n, names),
        forall|name: Seq<char>| #[trigger] reads(n@, name) ==> reads(t, name),
    ensures
        followed(a, n, t, env, names),
    decreases n, 3int,
{
    lemma_sound(a.memo, n, env, names);
    lemma_next(a, n, t, env, names);
}

proof fn lemma_sound(memo: MemoModel, n: Arc<Node>, env: Bindings, names: spec_fn(u64) -> Shape)
    requires
        sound(memo, names),
        named(*n, names),
    ensures
        faithful(n@, evaluated(memo, *n, env), env, names),
    decreases n, 2int,
{
    let id = n.id.0;
    if id == 0 || !(memo.contains_key(id) && holds(memo[id].1, env)) {
        lemma_computed_sound(memo, n, env, names);
    }
}

#[verifier::rlimit(40)]
proof fn lemma_computed_sound(
    memo: MemoModel,
    n: Arc<Node>,
    env: Bindings,
    names: spec_fn(u64) -> Shape,
)
    requires
        sound(memo, names),
        named(*n, names),
    ensures
        faithful(n@, computed(memo, *n, env), env, names),
    decreases n, 1int,
{
    let o = begin(memo);
    let t = n@;
    match n.kind {
        NodeKind::Atom(s) => {
            let d = atom_deps(s@, env);
            assert forall|e: Bindings| #[trigger] holds(d, e) implies value_of(t, e) == atom_meaning(
                s@,
                env,
            ) by {
                if number(encode_utf8(s@)) is None {
                    assert(d[0] == (s@, lookup(env, s@)));
                }
            }
        },
        NodeKind::Prefix { op, child } => lemma_child(o, child, t, env, names),
        NodeKind::Binary { op, left, right } => {
            lemma_child(o, left, t, env, names);
            lemma_child(next(o, left, env), right, t, env, names);
        },
        NodeKind::Ternary { cond, then, else_ } => {
            lemma_child(o, cond, t, env, names);
            let a = next(o, cond, env);
            lemma_child(a, then, t, env, names);
            lemma_child(next(a, then, env), else_, t, env, names);
        },
        NodeKind::Paren { inner } => lemma_child(o, inner, t, env, names),
        NodeKind::Call { callee, args } => {
            lemma_child(o, callee, t, env, names);
            let a = next(o, callee, env);
            assert forall|i: int, name: Seq<char>|
                0 <= i < args@.len() && #[trigger] reads(args@[i]@, name) implies reads(t, name) by {
                assert(t.kind->args[i] == args@[i]@);
            }
            lemma_args_sound(a, args@, args@.len() as int, env, names, t);
        },
        NodeKind::Index { array, index } => {
            lemma_child(o, array, t, env, names);
            lemma_child(next(o, array, env), index, t, env, names);
        },
        NodeKind::Member { object, field } => lemma_child(o, object, t, env, names),
        NodeKind::Missing => {},
        NodeKind::Error { skipped } => {},
    }
}

/// Where identities name subtrees, evaluation from a sound memo gives the
/// value of the tree under the present bindings, and leaves a sound memo.
pub proof fn law_context_sound(
    memo: MemoModel,
    n: Arc<Node>,
    env: Bindings,
    names: spec_fn(u64) -> Shape,
)
    requires
        sound(memo, names),
        named(*n, names),
    ensures
        evaluated(memo, *n, env).value == value_of(n@, env),
        sound(evaluated(memo, *n, env).memo, names),
{
    lemma_sound(memo, n, env, names);
}

/// Collection keeps a memo sound.
pub proof fn law_collection_sound(
    memo: MemoModel,
    threshold: usize,
    n: Arc<Node>,
    names: spec_fn(u64) -> Shape,
)
    requires
        sound(memo, names),
    ensures
        sound(swept(memo, threshold, *n), names),
{
}

/// Collection forgets nothing of the tree at hand; a memo of no more than 1024 entries, or
/// no more than the threshold, is left as it is, and a larger one keeps only what is of
/// the tree.
pub proof fn law_collection_keeps(memo: MemoModel, threshold: usize, n: Node, id: u64)
    ensures
        ({
            let m = swept(memo, threshold, n);
            &&& m.dom().contains(id) ==> memo.dom().contains(id) && m[id] == memo[id]
            &&& memo.dom().contains(id) && identities(n).contains(id) ==> m.dom().contains(id)
            &&& memo.dom().len() <= 1024 || memo.dom().len() <= threshold ==> m == memo
            &&& memo.dom().len() > 1024 && memo.dom().len() > threshold && m.dom().contains(id)
                ==> identities(n).contains(id)
        }),
{
}

/// The bindings an evaluation records are those of `env`.
proof fn lemma_deps_hold(memo: MemoModel, n: Arc<Node>, env: Bindings)
    ensures
        holds(evaluated(memo, *n, env).deps, env),
        holds(computed(memo, *n, env).deps, env),
    decreases n, 1int,
{
    let o = begin(memo);
    match n.kind {
        NodeKind::Prefix { op, child } => lemma_next_holds(o, child, env),
        NodeKind::Binary { op, left, right } => {
            lemma_next_holds(o, left, env);
            lemma_next_holds(next(o, left, env), right, env);
        },
        NodeKind::Ternary { cond, then, else_ } => {
            lemma_next_holds(o, cond, env);
            let a = next(o, cond, env);
            lemma_next_holds(a, then, env);
            lemma_next_holds(next(a, then, env), else_, env);
        },
        NodeKind::Paren { inner } => lemma_next_holds(o, inner, env),
        NodeKind::Call { callee, args } => {
            lemma_next_holds(o, callee, env);
            lemma_args_hold(next(o, callee, env), args@, args@.len() as int, env);
        },
        NodeKind::Index { array, index } => {
            lemma_next_holds(o, array, env);
            lemma_next_holds(next(o, array, env), index, env);
        },
        NodeKind::Member { object, field } => lemma_next_holds(o, object, env),
        _ => {},
    }
}

proof fn lemma_next_holds(a: Outcome, n: Arc<Node>, env: Bindings)
    requires
        holds(a.deps, env),
    ensures
        holds(next(a, n, env).deps, env),
    decreases n, 2int,
{
    lemma_deps_hold(a.memo, n, env);
    lemma_merged(a.deps, deps_of(a.memo, n, env), env);
}

proof fn lemma_args_hold(a: Outcome, args: Seq<Arc<Node>>, k: int, env: Bindings)
    requires
        0 <= k <= args.len(),
        holds(a.deps, env),
    ensures
        holds(evaluated_args(a, args, k, env).deps, env),
    decreases args, k,
{
    if k > 0 {
        lemma_args_hold(a, args, k - 1, env);
        lemma_next_holds(evaluated_args(a, args, k - 1, env), args[k - 1], env);
    }
}

/// A tree with an identity, just evaluated, is remembered, collection or not.
pub proof fn law_remembered(memo: MemoModel, threshold: usize, n: Arc<Node>, env: Bindings)
    requires
        n.id.0 != 0,
    ensures
        ({
            let o = evaluated(memo, *n, env);
            let m = swept(o.memo, threshold, *n);
            evaluated(m, *n, env) == (Outcome {
                value: o.value,
                deps: o.deps,
                memo: m,
                recomputed: 0,
                reused: 1,
            })
        }),
{
    lemma_deps_hold(memo, n, env);
}

/// A change of bindings that a remembered subtree does not read leaves its
/// value in use: nothing of it is evaluated again.
pub proof fn law_binding_change_is_local(
    memo: MemoModel,
    n: Arc<Node>,
    before: Bindings,
    now: Bindings,
    names: spec_fn(u64) -> Shape,
)
    requires
        sound(memo, names),
        named(*n, names),
        n.id.0 != 0,
        memo.contains_key(n.id.0),
        holds(memo[n.id.0].1, before),
        forall|name: Seq<char>| #[trigger]
            reads(n@, name) ==> lookup(now, name) == lookup(before, name),
    ensures
        evaluated(memo, *n, now).recomputed == 0,
        evaluated(memo, *n, now).reused == 1,
        evaluated(memo, *n, now).value == value_of(n@, now),
{
    let d = memo[n.id.0].1;
    assert forall|i: int| 0 <= i < d.len() implies lookup(now, (#[trigger] d[i]).0) == d[i].1 by {
        assert(reads(n@, d[i].0));
        assert(lookup(before, d[i].0) == d[i].1);
    }
    lemma_sound(memo, n, now, names);
}

} // verus!
