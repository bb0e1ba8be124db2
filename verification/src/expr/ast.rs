//! Shared syntax trees with width-based positions.
//!
//! A `Node` stores its byte length instead of an absolute span, so a subtree
//! can be reused at another position unchanged; children are `Arc`s, so reuse
//! is one reference-count bump. Each node carries the metadata of the
//! precedence-bounded reuse predicate:
//!   * `m_spine`: least left-binding power among the operators absorbed by the
//!     loop that produced the node (`u32::MAX` if none);
//!   * `stop_lbp`: left-binding power of the token that followed the node;
//!   * `m_floor`: the `min_prec` the producing loop ran under (diagnostics).

use std::sync::Arc;
use vstd::prelude::*;

use crate::expr::lexer::TokenKind;
use crate::expr::shape::{flat, weight};

verus! {

/// Identity of a node, kept when the node is reused.
#[derive(Debug, Clone, Copy, PartialEq, Eq, Hash, Structural)]
pub struct NodeId(pub u64);

#[derive(Debug, Clone)]
pub struct Node {
    pub width: u32,
    pub kind: NodeKind,
    pub m_spine: u32,
    pub stop_lbp: u32,
    pub m_floor: u32,
    /// Identity; ignored by `==`.
    pub id: NodeId,
    /// Operand count of a chain spine node, 1 for every other node; ignored
    /// by `==`.
    pub wb: u32,
}

#[derive(Debug, Clone)]
pub enum NodeKind {
    Atom(String),
    Prefix { op: TokenKind, child: Arc<Node> },
    Binary { op: TokenKind, left: Arc<Node>, right: Arc<Node> },
    Ternary { cond: Arc<Node>, then: Arc<Node>, else_: Arc<Node> },
    Paren { inner: Arc<Node> },
    Call { callee: Arc<Node>, args: Vec<Arc<Node>> },
    Index { array: Arc<Node>, index: Arc<Node> },
    Member { object: Arc<Node>, field: String },
    /// A synthesized operand of zero width; never in a clean parse.
    Missing,
    /// Tokens that could not be interpreted; never in a clean parse.
    Error { skipped: Vec<TokenKind> },
}

/// Mathematical model of a node: everything but identity and chain weight.
pub ghost struct Shape {
    pub width: int,
    pub m_spine: int,
    pub stop_lbp: int,
    pub m_floor: int,
    pub kind: ShapeKind,
}

pub ghost enum ShapeKind {
    Atom(Seq<char>),
    Prefix { op: TokenKind, child: Box<Shape> },
    Binary { op: TokenKind, left: Box<Shape>, right: Box<Shape> },
    Ternary { cond: Box<Shape>, then: Box<Shape>, else_: Box<Shape> },
    Paren { inner: Box<Shape> },
    Call { callee: Box<Shape>, args: Seq<Shape> },
    Index { array: Box<Shape>, index: Box<Shape> },
    Member { object: Box<Shape>, field: Seq<char> },
    Missing,
    Error { skipped: Seq<TokenKind> },
}

impl Node {
    /// The model of this node.
    pub open spec fn shape(&self) -> Shape
        decreases self,
    {
        Shape {
            width: self.width as int,
            m_spine: self.m_spine as int,
            stop_lbp: self.stop_lbp as int,
            m_floor: self.m_floor as int,
            kind: match self.kind {
                NodeKind::Atom(s) => ShapeKind::Atom(s@),
                NodeKind::Prefix { op, child } => ShapeKind::Prefix {
                    op,
                    child: Box::new(child.shape()),
                },
                NodeKind::Binary { op, left, right } => ShapeKind::Binary {
                    op,
                    left: Box::new(left.shape()),
                    right: Box::new(right.shape()),
                },
                NodeKind::Ternary { cond, then, else_ } => ShapeKind::Ternary {
                    cond: Box::new(cond.shape()),
                    then: Box::new(then.shape()),
                    else_: Box::new(else_.shape()),
                },
                NodeKind::Paren { inner } => ShapeKind::Paren { inner: Box::new(inner.shape()) },
                NodeKind::Call { callee, args } => ShapeKind::Call {
                    callee: Box::new(callee.shape()),
                    args: Seq::new(
                        args@.len(),
                        |i: int|
                            if 0 <= i < args@.len() {
                                args@[i].shape()
                            } else {
                                arbitrary()
                            },
                    ),
                },
                NodeKind::Index { array, index } => ShapeKind::Index {
                    array: Box::new(array.shape()),
                    index: Box::new(index.shape()),
                },
                NodeKind::Member { object, field } => ShapeKind::Member {
                    object: Box::new(object.shape()),
                    field: field@,
                },
                NodeKind::Missing => ShapeKind::Missing,
                NodeKind::Error { skipped } => ShapeKind::Error { skipped: skipped@ },
            },
        }
    }
}

impl View for Node {
    type V = Shape;

    open spec fn view(&self) -> Shape {
        self.shape()
    }
}

impl PartialEq for Node {
    /// Structural equality: same shape and reuse metadata, whatever the ids.
    fn eq(&self, other: &Self) -> (r: bool) {
        self.same(other)
    }
}

impl vstd::std_specs::cmp::PartialEqSpecImpl for Node {
    open spec fn obeys_eq_spec() -> bool {
        true
    }

    open spec fn eq_spec(&self, other: &Self) -> bool {
        self@ == other@
    }
}

/// The models of a list of nodes.
pub open spec fn shapes(v: Seq<Arc<Node>>) -> Seq<Shape> {
    Seq::new(v.len(), |i: int| v[i]@)
}

/// Structural equality of two node lists, element by element.
fn same_nodes(a: &Vec<Arc<Node>>, b: &Vec<Arc<Node>>) -> (r: bool)
    ensures
        r == (shapes(a@) == shapes(b@)),
    decreases a,
{
    if a.len() != b.len() {
        assert(shapes(a@).len() != shapes(b@).len());
        return false;
    }
    let mut i: usize = 0;
    while i < a.len()
        invariant
            i <= a@.len(),
            a@.len() == b@.len(),
            forall|k: int| 0 <= k < i ==> a@[k]@ == b@[k]@,
        decreases a@.len() - i,
    {
        if !a[i].same(&b[i]) {
            assert(shapes(a@)[i as int] != shapes(b@)[i as int]);
            return false;
        }
        i = i + 1;
    }
    assert(shapes(a@) =~= shapes(b@));
    true
}

fn same_kinds(a: &Vec<TokenKind>, b: &Vec<TokenKind>) -> (r: bool)
    ensures
        r == (a@ == b@),
{
    if a.len() != b.len() {
        return false;
    }
    let mut i: usize = 0;
    while i < a.len()
        invariant
            i <= a@.len(),
            a@.len() == b@.len(),
            forall|k: int| 0 <= k < i ==> a@[k] == b@[k],
        decreases a@.len() - i,
    {
        if a[i] != b[i] {
            return false;
        }
        i = i + 1;
    }
    assert(a@ =~= b@);
    true
}

impl Node {
    /// Structural equality, ignoring ids and chain weights.
    pub fn same(&self, other: &Node) -> (r: bool)
        ensures
            r == (self@ == other@),
        decreases self,
    {
        if self.width != other.width || self.m_spine != other.m_spine || self.stop_lbp
            != other.stop_lbp || self.m_floor != other.m_floor {
            return false;
        }
        match (&self.kind, &other.kind) {
            (NodeKind::Atom(s), NodeKind::Atom(t)) => *s == *t,
            (
                NodeKind::Prefix { op, child },
                NodeKind::Prefix { op: op2, child: child2 },
            ) => *op == *op2 && child.same(child2),
            (
                NodeKind::Binary { op, left, right },
                NodeKind::Binary { op: op2, left: left2, right: right2 },
            ) => *op == *op2 && left.same(left2) && right.same(right2),
            (
                NodeKind::Ternary { cond, then, else_ },
                NodeKind::Ternary { cond: cond2, then: then2, else_: else2 },
            ) => cond.same(cond2) && then.same(then2) && else_.same(else2),
            (NodeKind::Paren { inner }, NodeKind::Paren { inner: inner2 }) => inner.same(inner2),
            (
                NodeKind::Call { callee, args },
                NodeKind::Call { callee: callee2, args: args2 },
            ) => {
                proof {
                    lemma_call_shape(self);
                    lemma_call_shape(other);
                }
                callee.same(callee2) && same_nodes(args, args2)
            },
            (
                NodeKind::Index { array, index },
                NodeKind::Index { array: array2, index: index2 },
            ) => array.same(array2) && index.same(index2),
            (
                NodeKind::Member { object, field },
                NodeKind::Member { object: object2, field: field2 },
            ) => object.same(object2) && *field == *field2,
            (NodeKind::Missing, NodeKind::Missing) => true,
            (NodeKind::Error { skipped }, NodeKind::Error { skipped: skipped2 }) => same_kinds(
                skipped,
                skipped2,
            ),
            _ => false,
        }
    }
}

impl Node {
    /// Every node of the tree carries its chain weight.
    pub open spec fn weighted(&self) -> bool
        decreases self,
    {
        &&& self.wb == weight(self@)
        &&& match self.kind {
            NodeKind::Atom(s) => true,
            NodeKind::Prefix { op, child } => child.weighted(),
            NodeKind::Binary { op, left, right } => left.weighted() && right.weighted(),
            NodeKind::Ternary { cond, then, else_ } => cond.weighted() && then.weighted()
                && else_.weighted(),
            NodeKind::Paren { inner } => inner.weighted(),
            NodeKind::Call { callee, args } => callee.weighted() && forall|i: int|
                0 <= i < args@.len() ==> (#[trigger] args@[i]).weighted(),
            NodeKind::Index { array, index } => array.weighted() && index.weighted(),
            NodeKind::Member { object, field } => object.weighted(),
            NodeKind::Missing => true,
            NodeKind::Error { skipped } => true,
        }
    }
}

/// Number of nodes of a tree.
pub open spec fn node_count(t: Shape) -> int
    decreases t, 0int,
{
    1 + match t.kind {
        ShapeKind::Atom(s) => 0,
        ShapeKind::Prefix { op, child } => node_count(*child),
        ShapeKind::Binary { op, left, right } => node_count(*left) + node_count(*right),
        ShapeKind::Ternary { cond, then, else_ } => node_count(*cond) + node_count(*then)
            + node_count(*else_),
        ShapeKind::Paren { inner } => node_count(*inner),
        ShapeKind::Call { callee, args } => node_count(*callee) + count_upto(
            args,
            args.len() as int,
        ),
        ShapeKind::Index { array, index } => node_count(*array) + node_count(*index),
        ShapeKind::Member { object, field } => node_count(*object),
        ShapeKind::Missing => 0,
        ShapeKind::Error { skipped } => 0,
    }
}

/// Number of nodes of the first `k` trees of a list.
pub open spec fn count_upto(ts: Seq<Shape>, k: int) -> int
    decreases ts, k,
{
    if 0 < k <= ts.len() {
        count_upto(ts, k - 1) + node_count(ts[k - 1])
    } else {
        0
    }
}

pub proof fn lemma_count_positive(t: Shape)
    ensures
        node_count(t) >= 1,
    decreases t, 0int,
{
    match t.kind {
        ShapeKind::Atom(s) => {},
        ShapeKind::Prefix { op, child } => lemma_count_positive(*child),
        ShapeKind::Binary { op, left, right } => {
            lemma_count_positive(*left);
            lemma_count_positive(*right);
        },
        ShapeKind::Ternary { cond, then, else_ } => {
            lemma_count_positive(*cond);
            lemma_count_positive(*then);
            lemma_count_positive(*else_);
        },
        ShapeKind::Paren { inner } => lemma_count_positive(*inner),
        ShapeKind::Call { callee, args } => {
            lemma_count_positive(*callee);
            lemma_count_upto_mono(args, 0, args.len() as int);
        },
        ShapeKind::Index { array, index } => {
            lemma_count_positive(*array);
            lemma_count_positive(*index);
        },
        ShapeKind::Member { object, field } => lemma_count_positive(*object),
        ShapeKind::Missing => {},
        ShapeKind::Error { skipped } => {},
    }
}

pub proof fn lemma_count_upto_mono(ts: Seq<Shape>, i: int, k: int)
    requires
        0 <= i <= k <= ts.len(),
    ensures
        0 <= count_upto(ts, i) <= count_upto(ts, k),
    decreases ts, k,
{
    if k > 0 {
        lemma_count_positive(ts[k - 1]);
        if i < k {
            lemma_count_upto_mono(ts, i, k - 1);
        } else {
            lemma_count_upto_mono(ts, i - 1, k - 1);
        }
    }
}

/// Number of nodes of the trees in a list.
fn count_nodes(v: &Vec<Arc<Node>>) -> (r: u32)
    requires
        count_upto(shapes(v@), v@.len() as int) <= u32::MAX,
    ensures
        r == count_upto(shapes(v@), v@.len() as int),
    decreases v,
{
    let mut total: u32 = 0;
    let mut i: usize = 0;
    while i < v.len()
        invariant
            i <= v@.len(),
            total == count_upto(shapes(v@), i as int),
            count_upto(shapes(v@), v@.len() as int) <= u32::MAX,
        decreases v@.len() - i,
    {
        proof {
            lemma_count_upto_mono(shapes(v@), i + 1, v@.len() as int);
            lemma_count_upto_mono(shapes(v@), i as int, i + 1);
            assert(count_upto(shapes(v@), i + 1) == total + node_count(shapes(v@)[i as int]));
        }
        total = total + v[i].count();
        i = i + 1;
    }
    total
}

impl Node {
    /// Number of nodes of this tree.
    pub fn count(&self) -> (r: u32)
        requires
            node_count(self@) <= u32::MAX,
        ensures
            r == node_count(self@),
        decreases self,
    {
        match &self.kind {
            NodeKind::Atom(_) => 1,
            NodeKind::Prefix { op: _, child } => 1 + child.count(),
            NodeKind::Binary { op: _, left, right } => {
                proof {
                    lemma_count_positive(left@);
                    lemma_count_positive(right@);
                }
                1 + left.count() + right.count()
            },
            NodeKind::Ternary { cond, then, else_ } => {
                proof {
                    lemma_count_positive(cond@);
                    lemma_count_positive(then@);
                    lemma_count_positive(else_@);
                }
                1 + cond.count() + then.count() + else_.count()
            },
            NodeKind::Paren { inner } => 1 + inner.count(),
            NodeKind::Call { callee, args } => {
                proof {
                    lemma_call_shape(self);
                    lemma_count_positive(callee@);
                    lemma_count_upto_mono(shapes(args@), 0, args@.len() as int);
                }
                1 + callee.count() + count_nodes(args)
            },
            NodeKind::Index { array, index } => {
                proof {
                    lemma_count_positive(array@);
                    lemma_count_positive(index@);
                }
                1 + array.count() + index.count()
            },
            NodeKind::Member { object, field: _ } => 1 + object.count(),
            NodeKind::Missing => 1,
            NodeKind::Error { skipped: _ } => 1,
        }
    }
}

/// A source of fresh node identities.
#[derive(Debug, Clone, Copy)]
pub struct IdSource {
    pub next: u64,
}

impl IdSource {
    /// A source that starts at identity 1.
    pub fn new() -> (r: IdSource)
        ensures
            r.next == 1,
    {
        IdSource { next: 1 }
    }

    /// A source that names nothing: every node it is asked for has identity 0.
    pub fn none() -> (r: IdSource)
        ensures
            r.next == 0,
    {
        IdSource { next: 0 }
    }
}

/// The source after it was asked for an identity.
pub open spec fn next_id(next: u64) -> u64 {
    if next == 0 || next == u64::MAX {
        next
    } else {
        (next + 1) as u64
    }
}

/// Mint a fresh node identity: the source's next one, which it never gives
/// again; 0, no identity, where the source names nothing or has none left.
pub fn fresh_id(ids: &mut IdSource) -> (r: NodeId)
    ensures
        r.0 == (if old(ids).next == u64::MAX {
            0
        } else {
            old(ids).next
        }),
        final(ids).next == next_id(old(ids).next),
{
    let v: u64 = ids.next;
    if v == 0 || v == u64::MAX {
        NodeId(0)
    } else {
        ids.next = v + 1;
        NodeId(v)
    }
}

fn clone_nodes(v: &Vec<Arc<Node>>) -> (r: Vec<Arc<Node>>)
    ensures
        r@ == v@,
{
    let mut out: Vec<Arc<Node>> = Vec::new();
    let mut i: usize = 0;
    while i < v.len()
        invariant
            i <= v@.len(),
            out@ == v@.take(i as int),
        decreases v@.len() - i,
    {
        out.push(Arc::clone(&v[i]));
        i = i + 1;
        assert(out@ =~= v@.take(i as int));
    }
    assert(v@.take(v@.len() as int) =~= v@);
    out
}

fn clone_kinds(v: &Vec<TokenKind>) -> (r: Vec<TokenKind>)
    ensures
        r@ == v@,
{
    let mut out: Vec<TokenKind> = Vec::new();
    let mut i: usize = 0;
    while i < v.len()
        invariant
            i <= v@.len(),
            out@ == v@.take(i as int),
        decreases v@.len() - i,
    {
        out.push(v[i]);
        i = i + 1;
        assert(out@ =~= v@.take(i as int));
    }
    assert(v@.take(v@.len() as int) =~= v@);
    out
}

impl Node {
    /// An atom that no parse has placed yet.
    pub fn atom(text: &str, width: u32) -> (r: Node)
        ensures
            r@ == (Shape {
                width: width as int,
                m_spine: u32::MAX as int,
                stop_lbp: 0,
                m_floor: 0,
                kind: ShapeKind::Atom(text@),
            }),
            r.weighted(),
            r.id == NodeId(0),
            r.wb == 1,
    {
        Node {
            kind: NodeKind::Atom(text.to_owned()),
            width,
            m_spine: u32::MAX,
            stop_lbp: 0,
            m_floor: 0,
            id: NodeId(0),
            wb: 1,
        }
    }

    /// A synthesized operand of zero width.
    pub fn missing() -> (r: Node)
        ensures
            r@ == (Shape {
                width: 0,
                m_spine: u32::MAX as int,
                stop_lbp: 0,
                m_floor: 0,
                kind: ShapeKind::Missing,
            }),
            r.weighted(),
            r.id == NodeId(0),
            r.wb == 1,
    {
        Node {
            kind: NodeKind::Missing,
            width: 0,
            m_spine: u32::MAX,
            stop_lbp: 0,
            m_floor: 0,
            id: NodeId(0),
            wb: 1,
        }
    }

    /// Marker for tokens that could not be interpreted.
    pub fn error(skipped: Vec<TokenKind>, width: u32) -> (r: Node)
        ensures
            r@ == (Shape {
                width: width as int,
                m_spine: u32::MAX as int,
                stop_lbp: 0,
                m_floor: 0,
                kind: ShapeKind::Error { skipped: skipped@ },
            }),
            r.weighted(),
            r.id == NodeId(0),
            r.wb == 1,
    {
        Node {
            kind: NodeKind::Error { skipped },
            width,
            m_spine: u32::MAX,
            stop_lbp: 0,
            m_floor: 0,
            id: NodeId(0),
            wb: 1,
        }
    }

    /// A copy of this node with other reuse metadata; children are shared.
    pub fn restamped(&self, m_spine: u32, stop_lbp: u32, m_floor: u32) -> (r: Node)
        ensures
            r@ == (Shape {
                m_spine: m_spine as int,
                stop_lbp: stop_lbp as int,
                m_floor: m_floor as int,
                ..self@
            }),
            r.weighted() == self.weighted(),
            r.id == self.id,
            r.wb == self.wb,
            same_kids(self, &r),
    {
        let kind = match &self.kind {
            NodeKind::Atom(s) => NodeKind::Atom(s.clone()),
            NodeKind::Prefix { op, child } => NodeKind::Prefix {
                op: *op,
                child: Arc::clone(child),
            },
            NodeKind::Binary { op, left, right } => NodeKind::Binary {
                op: *op,
                left: Arc::clone(left),
                right: Arc::clone(right),
            },
            NodeKind::Ternary { cond, then, else_ } => NodeKind::Ternary {
                cond: Arc::clone(cond),
                then: Arc::clone(then),
                else_: Arc::clone(else_),
            },
            NodeKind::Paren { inner } => NodeKind::Paren { inner: Arc::clone(inner) },
            NodeKind::Call { callee, args } => NodeKind::Call {
                callee: Arc::clone(callee),
                args: clone_nodes(args),
            },
            NodeKind::Index { array, index } => NodeKind::Index {
                array: Arc::clone(array),
                index: Arc::clone(index),
            },
            NodeKind::Member { object, field } => NodeKind::Member {
                object: Arc::clone(object),
                field: field.clone(),
            },
            NodeKind::Missing => NodeKind::Missing,
            NodeKind::Error { skipped } => NodeKind::Error { skipped: clone_kinds(skipped) },
        };
        let r = Node {
            width: self.width,
            kind,
            m_spine,
            stop_lbp,
            m_floor,
            id: self.id,
            wb: self.wb,
        };
        proof {
            lemma_call_shape(self);
            lemma_call_shape(&r);
            assert(r@.kind == self@.kind);
            assert(weight(r@) == weight(self@)) by {
                if let ShapeKind::Binary { op, left, right } = self@.kind {
                    assert(flat(r@, op) == flat(self@, op));
                }
            }
        }
        r
    }
}

/// The model of a call lists the models of its arguments.
pub proof fn lemma_call_shape(n: &Node)
    ensures
        n.kind matches NodeKind::Call { callee, args } ==> n@.kind == (ShapeKind::Call {
            callee: Box::new(callee@),
            args: shapes(args@),
        }),
{
    if let NodeKind::Call { callee, args } = n.kind {
        assert(n@.kind->Call_args =~= shapes(args@));
    }
}

/// The nodes have the same children.
pub open spec fn same_kids(n: &Node, m: &Node) -> bool {
    match (n.kind, m.kind) {
        (NodeKind::Atom(_), NodeKind::Atom(_)) => true,
        (NodeKind::Prefix { child: x, .. }, NodeKind::Prefix { child: y, .. }) => x == y,
        (
            NodeKind::Binary { left: x, right: v, .. },
            NodeKind::Binary { left: y, right: w, .. },
        ) => x == y && v == w,
        (
            NodeKind::Ternary { cond: x, then: v, else_: c },
            NodeKind::Ternary { cond: y, then: w, else_: d },
        ) => x == y && v == w && c == d,
        (NodeKind::Paren { inner: x }, NodeKind::Paren { inner: y }) => x == y,
        (NodeKind::Call { callee: x, args: v }, NodeKind::Call { callee: y, args: w }) => x == y
            && v@ == w@,
        (NodeKind::Index { array: x, index: v }, NodeKind::Index { array: y, index: w }) => x == y
            && v == w,
        (NodeKind::Member { object: x, .. }, NodeKind::Member { object: y, .. }) => x == y,
        (NodeKind::Missing, NodeKind::Missing) => true,
        (NodeKind::Error { .. }, NodeKind::Error { .. }) => true,
        _ => false,
    }
}

/// A node with identity `id` occurs in the tree.
pub open spec fn occurs(n: Node, id: u64) -> bool
    decreases n,
{
    ||| n.id.0 == id
    ||| match n.kind {
        NodeKind::Atom(s) => false,
        NodeKind::Prefix { op, child } => occurs(*child, id),
        NodeKind::Binary { op, left, right } => occurs(*left, id) || occurs(*right, id),
        NodeKind::Ternary { cond, then, else_ } => occurs(*cond, id) || occurs(*then, id) || occurs(
            *else_,
            id,
        ),
        NodeKind::Paren { inner } => occurs(*inner, id),
        NodeKind::Call { callee, args } => occurs(*callee, id) || exists|i: int|
            0 <= i < args@.len() && occurs(*(#[trigger] args@[i]), id),
        NodeKind::Index { array, index } => occurs(*array, id) || occurs(*index, id),
        NodeKind::Member { object, field } => occurs(*object, id),
        NodeKind::Missing => false,
        NodeKind::Error { skipped } => false,
    }
}

} // verus!
