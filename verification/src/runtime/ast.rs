//! Syntax trees. A node stores its width, not its position, so a subtree can
//! stand at another place unchanged.

use std::sync::Arc;
use vstd::prelude::*;
use vstd::string::*;

use crate::runtime::table::{Table, TokenKind, MIN_PREC};

verus! {

/// A node and its precedence band: `m_spine` is the least binding power of the
/// operators on its spine, `stop_lbp` the binding power of the token after it,
/// `m_floor` the precedence it was parsed at, which nothing reads but a person.
#[derive(Debug)]
pub struct Node {
    pub width: u32,
    pub kind: NodeKind,
    pub m_spine: u32,
    pub stop_lbp: u32,
    pub m_floor: u32,
}

#[derive(Debug)]
pub enum NodeKind {
    Atom(String),
    Prefix { op: TokenKind, child: Arc<Node> },
    Postfix { op: TokenKind, child: Arc<Node> },
    Binary { op: TokenKind, left: Arc<Node>, right: Arc<Node> },
    Paren { inner: Arc<Node> },
}

/// What a tree says, whichever way its chains are grouped.
pub ghost enum Form {
    Atom(Seq<char>),
    Prefix { op: TokenKind, child: Box<Form> },
    Postfix { op: TokenKind, child: Box<Form> },
    Binary { op: TokenKind, left: Box<Form>, right: Box<Form> },
    /// Operands of an operator whose chains may be regrouped.
    Chain { op: TokenKind, items: Seq<Form> },
    Paren { inner: Box<Form> },
}

/// The operands that `f` adds to a chain of `op`.
pub open spec fn items(op: TokenKind, f: Form) -> Seq<Form> {
    match f {
        Form::Chain { op: o, items: s } => if o == op {
            s
        } else {
            seq![f]
        },
        _ => seq![f],
    }
}

/// `left op right`.
pub open spec fn join(t: Table, op: TokenKind, left: Form, right: Form) -> Form {
    if t.regroups(op) {
        Form::Chain { op, items: items(op, left) + items(op, right) }
    } else {
        Form::Binary { op, left: Box::new(left), right: Box::new(right) }
    }
}

/// The form of a tree.
pub open spec fn form_of(t: Table, n: Node) -> Form
    decreases n,
{
    match n.kind {
        NodeKind::Atom(s) => Form::Atom(s@),
        NodeKind::Prefix { op, child } => Form::Prefix { op, child: Box::new(form_of(t, *child)) },
        NodeKind::Postfix { op, child } => Form::Postfix { op, child: Box::new(form_of(t, *child)) },
        NodeKind::Binary { op, left, right } => join(t, op, form_of(t, *left), form_of(t, *right)),
        NodeKind::Paren { inner } => Form::Paren { inner: Box::new(form_of(t, *inner)) },
    }
}

/// The form of a shared tree.
pub open spec fn form(t: Table, n: Arc<Node>) -> Form {
    form_of(t, *n)
}

/// Number of operands that a tree adds to a chain of `op`.
pub open spec fn share(t: Table, op: TokenKind, n: Arc<Node>) -> nat {
    items(op, form(t, n)).len()
}

/// How a parse without reuse at precedence `m` lays out a tree: where its chains
/// are split, and what `m_floor` its nodes carry. A chain is split in halves, the
/// left one longer by at most one operand; where the right operand of the
/// operator takes all that follows, it is split after its first operand. An
/// operator's node carries `m`; that of a chain carries the power below the
/// operator's, unless it is the whole of what was parsed at `m` and has an operator
/// below the highest power on its spine.
pub open spec fn laid(t: Table, n: Node, m: u32, whole: bool) -> bool
    decreases n, 0int,
{
    match n.kind {
        NodeKind::Atom(s) => n.m_floor == 0,
        NodeKind::Prefix { op, child } => t.prefix_of(op) == Some(n.m_floor) && laid(
            t,
            *child,
            n.m_floor,
            true,
        ),
        NodeKind::Postfix { op, child } => n.m_floor == m && laid(t, *child, m, false),
        NodeKind::Binary { op, left, right } => {
            let right_at = t.right_power(op);
            if !t.regroups(op) {
                n.m_floor == m && laid(t, *left, m, false) && laid(t, *right, right_at, true)
            } else {
                &&& n.m_floor == (if whole && n.m_spine < u32::MAX {
                    m as int
                } else {
                    t.left_power(op) - 1
                })
                &&& if t.left_power(op) <= right_at {
                    &&& share(t, op, left) == (share(t, op, left) + share(t, op, right) + 1) / 2
                    &&& laid_part(t, op, *left, m, true)
                    &&& laid_part(t, op, *right, m, false)
                } else {
                    &&& share(t, op, left) == 1
                    &&& laid(t, *left, m, false)
                    &&& laid(t, *right, right_at, true)
                }
            }
        },
        NodeKind::Paren { inner } => n.m_floor == 0 && laid(t, *inner, MIN_PREC, true),
    }
}

/// `laid` for a part of a chain of `op` parsed at `m`; `first` says whether it
/// holds the chain's first operand.
pub open spec fn laid_part(t: Table, op: TokenKind, n: Node, m: u32, first: bool) -> bool
    decreases n, 1int,
{
    match n.kind {
        NodeKind::Binary { op: o, left, right } => if o == op {
            &&& n.m_floor == t.left_power(op) - 1
            &&& share(t, op, left) == (share(t, op, left) + share(t, op, right) + 1) / 2
            &&& laid_part(t, op, *left, m, first)
            &&& laid_part(t, op, *right, m, false)
        } else if first {
            laid(t, n, m, false)
        } else {
            laid(t, n, t.right_power(op), true)
        },
        _ => if first {
            laid(t, n, m, false)
        } else {
            laid(t, n, t.right_power(op), true)
        },
    }
}

/// A tree adds an operand to a chain; more than one only if it is a chain of the
/// operator.
pub proof fn lemma_share(t: Table, op: TokenKind, n: Arc<Node>)
    ensures
        share(t, op, n) >= 1,
        t.regroups(op) && (n.kind matches NodeKind::Binary { op: o, .. } && o == op) ==> share(
            t,
            op,
            n,
        ) >= 2,
    decreases n,
{
    if let NodeKind::Binary { op: o, left, right } = n.kind {
        lemma_share(t, o, left);
        lemma_share(t, o, right);
        if o == op {
            assert(items(op, form(t, left)).len() >= 1);
            assert(items(op, form(t, right)).len() >= 1);
        }
    }
}

/// What `m_floor` a node carries, wherever it was parsed: none for an atom and a
/// parenthesis, the operator's power for a prefix; else a precedence below all on
/// its spine, or the power below that of the chain it is part of.
pub open spec fn floor_ok(t: Table, n: Node) -> bool {
    match n.kind {
        NodeKind::Atom(s) => n.m_floor == 0,
        NodeKind::Prefix { op, child } => t.prefix_of(op) == Some(n.m_floor),
        NodeKind::Postfix { op, child } => n.m_floor < n.m_spine,
        NodeKind::Binary { op, left, right } => n.m_floor < n.m_spine || (t.regroups(op)
            && n.m_floor == t.left_power(op) - 1),
        NodeKind::Paren { inner } => n.m_floor == 0,
    }
}

/// Number of nodes.
pub open spec fn node_count(n: Node) -> nat
    decreases n,
{
    match n.kind {
        NodeKind::Atom(s) => 1,
        NodeKind::Prefix { op, child } => 1 + node_count(*child),
        NodeKind::Postfix { op, child } => 1 + node_count(*child),
        NodeKind::Binary { op, left, right } => 1 + node_count(*left) + node_count(*right),
        NodeKind::Paren { inner } => 1 + node_count(*inner),
    }
}

/// A tree in full parentheses.
pub open spec fn text_of(t: Table, n: Node) -> Seq<char>
    decreases n,
{
    match n.kind {
        NodeKind::Atom(s) => s@,
        NodeKind::Prefix { op, child } => "("@ + t.kind_text(op) + text_of(t, *child) + ")"@,
        NodeKind::Postfix { op, child } => "("@ + text_of(t, *child) + t.kind_text(op) + ")"@,
        NodeKind::Binary { op, left, right } => "("@ + text_of(t, *left) + " "@ + t.kind_text(op)
            + " "@ + text_of(t, *right) + ")"@,
        NodeKind::Paren { inner } => text_of(t, *inner),
    }
}

/// A form in full parentheses, chains flat.
pub open spec fn form_text(t: Table, f: Form) -> Seq<char>
    decreases f, 0int,
{
    match f {
        Form::Atom(s) => s,
        Form::Prefix { op, child } => "("@ + t.kind_text(op) + form_text(t, *child) + ")"@,
        Form::Postfix { op, child } => "("@ + form_text(t, *child) + t.kind_text(op) + ")"@,
        Form::Binary { op, left, right } => "("@ + form_text(t, *left) + " "@ + t.kind_text(op)
            + " "@ + form_text(t, *right) + ")"@,
        Form::Chain { op, items } => "("@ + items_text(t, op, items, items.len() as int) + ")"@,
        Form::Paren { inner } => form_text(t, *inner),
    }
}

/// The first `k` operands of a chain, with the operator between them.
pub open spec fn items_text(t: Table, op: TokenKind, s: Seq<Form>, k: int) -> Seq<char>
    decreases s, k,
{
    if !(0 < k <= s.len()) {
        Seq::empty()
    } else if k == 1 {
        form_text(t, s[0])
    } else {
        items_text(t, op, s, k - 1) + " "@ + t.kind_text(op) + " "@ + form_text(t, s[k - 1])
    }
}

proof fn lemma_items_text_prefix(t: Table, op: TokenKind, a: Seq<Form>, b: Seq<Form>, k: int)
    requires
        0 <= k <= a.len(),
        k <= b.len(),
        forall|i: int| 0 <= i < k ==> a[i] == b[i],
    ensures
        items_text(t, op, a, k) == items_text(t, op, b, k),
    decreases k,
{
    if k > 1 {
        lemma_items_text_prefix(t, op, a, b, k - 1);
    }
}

/// The text of two chains one after the other.
pub proof fn lemma_items_text_concat(t: Table, op: TokenKind, a: Seq<Form>, b: Seq<Form>, k: int)
    requires
        a.len() > 0,
        0 < k <= b.len(),
    ensures
        items_text(t, op, a + b, a.len() + k) == items_text(t, op, a, a.len() as int) + " "@
            + t.kind_text(op) + " "@ + items_text(t, op, b, k),
    decreases k,
{
    let c = a + b;
    let n = a.len() as int;
    lemma_items_text_prefix(t, op, c, a, n);
    assert(c[n + k - 1] == b[k - 1]);
    if k > 1 {
        lemma_items_text_concat(t, op, a, b, k - 1);
        assert(items_text(t, op, c, n + k) =~= items_text(t, op, a, n) + " "@ + t.kind_text(op)
            + " "@ + items_text(t, op, b, k));
    }
}

/// A form has operands for every chain.
pub open spec fn full(f: Form) -> bool
    decreases f,
{
    match f {
        Form::Atom(s) => true,
        Form::Prefix { op, child } => full(*child),
        Form::Postfix { op, child } => full(*child),
        Form::Binary { op, left, right } => full(*left) && full(*right),
        Form::Chain { op, items } => items.len() > 0,
        Form::Paren { inner } => full(*inner),
    }
}

proof fn lemma_form_full(t: Table, n: Node)
    ensures
        full(form_of(t, n)),
        forall|op: TokenKind| #[trigger] items(op, form_of(t, n)).len() > 0,
    decreases n,
{
    match n.kind {
        NodeKind::Atom(s) => {},
        NodeKind::Prefix { op, child } => lemma_arc_full(t, child),
        NodeKind::Postfix { op, child } => lemma_arc_full(t, child),
        NodeKind::Binary { op, left, right } => {
            lemma_arc_full(t, left);
            lemma_arc_full(t, right);
            assert(items(op, form_of(t, *left)).len() > 0);
        },
        NodeKind::Paren { inner } => lemma_arc_full(t, inner),
    }
}

pub proof fn lemma_arc_full(t: Table, n: Arc<Node>)
    ensures
        full(form_of(t, *n)),
        forall|op: TokenKind| #[trigger] items(op, form_of(t, *n)).len() > 0,
    decreases n,
{
    match n.kind {
        NodeKind::Atom(s) => {},
        NodeKind::Prefix { op, child } => lemma_arc_full(t, child),
        NodeKind::Postfix { op, child } => lemma_arc_full(t, child),
        NodeKind::Binary { op, left, right } => {
            lemma_arc_full(t, left);
            lemma_arc_full(t, right);
            assert(items(op, form_of(t, *left)).len() > 0);
        },
        NodeKind::Paren { inner } => lemma_arc_full(t, inner),
    }
}

impl Node {
    /// A leaf.
    pub fn atom(text: &str, width: u32) -> (r: Node)
        ensures
            r.kind matches NodeKind::Atom(s) && s@ == text@,
            r.width == width,
            r.m_spine == u32::MAX,
            r.stop_lbp == 0,
            r.m_floor == 0,
    {
        Node {
            kind: NodeKind::Atom(text.to_owned()),
            width,
            m_spine: u32::MAX,
            stop_lbp: 0,
            m_floor: 0,
        }
    }

    /// Number of nodes.
    pub fn count(&self) -> (r: u32)
        requires
            node_count(*self) <= u32::MAX,
        ensures
            r == node_count(*self),
        decreases self,
    {
        match &self.kind {
            NodeKind::Atom(_) => 1,
            NodeKind::Prefix { op: _, child } => 1 + child.count(),
            NodeKind::Postfix { op: _, child } => 1 + child.count(),
            NodeKind::Binary { op: _, left, right } => 1 + left.count() + right.count(),
            NodeKind::Paren { inner } => 1 + inner.count(),
        }
    }

    /// The tree in full parentheses.
    pub fn unparse(&self, t: &Table) -> (r: String)
        ensures
            r@ == text_of(*t, *self),
        decreases self,
    {
        match &self.kind {
            NodeKind::Atom(s) => s.clone(),
            NodeKind::Prefix { op, child } => {
                let mut out: String = "(".to_owned();
                out.append(t.token_text(*op));
                let c = child.unparse(t);
                out.append(c.as_str());
                out.append(")");
                out
            },
            NodeKind::Postfix { op, child } => {
                let mut out: String = "(".to_owned();
                let c = child.unparse(t);
                out.append(c.as_str());
                out.append(t.token_text(*op));
                out.append(")");
                out
            },
            NodeKind::Binary { op, left, right } => {
                let mut out: String = "(".to_owned();
                let l = left.unparse(t);
                out.append(l.as_str());
                out.append(" ");
                out.append(t.token_text(*op));
                out.append(" ");
                let r = right.unparse(t);
                out.append(r.as_str());
                out.append(")");
                out
            },
            NodeKind::Paren { inner } => inner.unparse(t),
        }
    }

    /// The tree in full parentheses, chains of an operator that may be
    /// regrouped written flat.
    pub fn unparse_normalized(&self, t: &Table) -> (r: String)
        ensures
            r@ == form_text(*t, form_of(*t, *self)),
        decreases self, 1int,
    {
        match &self.kind {
            NodeKind::Atom(s) => s.clone(),
            NodeKind::Prefix { op, child } => {
                let mut out: String = "(".to_owned();
                out.append(t.token_text(*op));
                let c = child.unparse_normalized(t);
                out.append(c.as_str());
                out.append(")");
                out
            },
            NodeKind::Postfix { op, child } => {
                let mut out: String = "(".to_owned();
                let c = child.unparse_normalized(t);
                out.append(c.as_str());
                out.append(t.token_text(*op));
                out.append(")");
                out
            },
            NodeKind::Binary { op, left, right } => {
                let mut out: String = "(".to_owned();
                if t.is_associativity_conflict(*op) {
                    let c = self.flatten_assoc(t, *op);
                    out.append(c.as_str());
                    proof {
                        lemma_form_full(*t, *self);
                    }
                } else {
                    let l = left.unparse_normalized(t);
                    out.append(l.as_str());
                    out.append(" ");
                    out.append(t.token_text(*op));
                    out.append(" ");
                    let r = right.unparse_normalized(t);
                    out.append(r.as_str());
                }
                out.append(")");
                out
            },
            NodeKind::Paren { inner } => inner.unparse_normalized(t),
        }
    }

    /// The operands of a chain of `chain_op`, with the operator between them.
    fn flatten_assoc(&self, t: &Table, chain_op: TokenKind) -> (r: String)
        requires
            t.regroups(chain_op),
        ensures
            r@ == items_text(
                *t,
                chain_op,
                items(chain_op, form_of(*t, *self)),
                items(chain_op, form_of(*t, *self)).len() as int,
            ),
        decreases self, (if self.kind matches NodeKind::Binary { op, left, right } && op == chain_op {
            0int
        } else {
            2int
        }),
    {
        match &self.kind {
            NodeKind::Binary { op, left, right } => {
                if *op == chain_op {
                    let mut out: String = left.flatten_assoc(t, chain_op);
                    out.append(" ");
                    out.append(t.token_text(chain_op));
                    out.append(" ");
                    let r = right.flatten_assoc(t, chain_op);
                    out.append(r.as_str());
                    proof {
                        let a = items(chain_op, form(*t, *left));
                        let b = items(chain_op, form(*t, *right));
                        lemma_arc_full(*t, *left);
                        lemma_arc_full(*t, *right);
                        lemma_items_text_concat(*t, chain_op, a, b, b.len() as int);
                    }
                    return out;
                }
            },
            _ => {},
        }
        self.unparse_normalized(t)
    }
}

} // verus!
