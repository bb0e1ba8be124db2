//! Chains of an operator that may be regrouped: operands in a row, built into
//! a balanced tree.

use std::sync::Arc;
use vstd::prelude::*;

use crate::runtime::ast::{
    form, items, join, laid, laid_part, lemma_share, share, Form, Node, NodeKind,
};
use crate::runtime::cursor::{lemma_next_token, next_token};
use crate::runtime::grammar::{
    expr, least, lemma_reached_step, reached, stands, step, tree_stands, ParseError,
};
use crate::runtime::table::{Table, TokenKind};

verus! {

/// The right operand of the operator does not take what follows of its chain.
pub open spec fn closes(t: Table, op: TokenKind) -> bool {
    t.left_power(op) <= t.right_power(op)
}

/// An operand of a chain and the byte it starts at.
pub struct ChainOperand {
    pub start_byte: u32,
    pub node: Arc<Node>,
}

/// Where an operand ends.
pub open spec fn ends_at(o: ChainOperand) -> int {
    o.start_byte + o.node.width
}

/// Operand `i` follows the one before it, the operator between them.
pub open spec fn follows(
    t: Table,
    b: Seq<u8>,
    op: TokenKind,
    os: Seq<ChainOperand>,
    i: int,
) -> bool {
    let k = next_token(t, b, ends_at(os[i - 1]));
    &&& k.kind == op
    &&& os[i].start_byte == next_token(t, b, k.end as int).start
    &&& expr(t, b, k.end as int, t.right_power(op)) == Ok::<(Form, int), ParseError>(
        (form(t, os[i].node), ends_at(os[i])),
    )
}

/// The operands stand in a row.
pub open spec fn in_a_row(t: Table, b: Seq<u8>, op: TokenKind, os: Seq<ChainOperand>) -> bool {
    &&& os.len() > 0
    &&& forall|i: int| 0 < i < os.len() ==> #[trigger] follows(t, b, op, os, i)
}

/// Operand `j` ends at or after the start of operand `i`, within bounds.
pub open spec fn up_to(os: Seq<ChainOperand>, i: int, j: int) -> bool {
    os[i].start_byte <= ends_at(os[j]) <= u32::MAX
}

/// Operand `i` stands in its place.
pub open spec fn stands_in(
    t: Table,
    b: Seq<u8>,
    op: TokenKind,
    os: Seq<ChainOperand>,
    i: int,
) -> bool {
    tree_stands(t, b, os[i].start_byte as int, os[i].node)
}

/// Every operand stands in its place.
pub open spec fn all_stand(t: Table, b: Seq<u8>, op: TokenKind, os: Seq<ChainOperand>) -> bool {
    forall|i: int| 0 <= i < os.len() ==> #[trigger] stands_in(t, b, op, os, i)
}

/// The form of operands `lo..hi`.
pub open spec fn row_form(t: Table, op: TokenKind, os: Seq<ChainOperand>, lo: int, hi: int) -> Form
    decreases hi - lo,
{
    if hi <= lo + 1 {
        form(t, os[lo].node)
    } else {
        join(t, op, row_form(t, op, os, lo, hi - 1), form(t, os[hi - 1].node))
    }
}

/// The loosest binding power on the spine of operands `lo..hi`.
pub open spec fn row_spine(t: Table, op: TokenKind, os: Seq<ChainOperand>, lo: int, hi: int) -> u32 {
    if hi <= lo + 1 {
        os[lo].node.m_spine
    } else {
        least(os[lo].node.m_spine, t.left_power(op))
    }
}

proof fn lemma_row_split(t: Table, op: TokenKind, os: Seq<ChainOperand>, lo: int, mid: int, hi: int)
    requires
        t.regroups(op),
        lo < mid < hi,
    ensures
        row_form(t, op, os, lo, hi) == join(
            t,
            op,
            row_form(t, op, os, lo, mid),
            row_form(t, op, os, mid, hi),
        ),
    decreases hi - mid,
{
    let a = row_form(t, op, os, lo, mid);
    let z = form(t, os[hi - 1].node);
    if hi == mid + 1 {
    } else {
        lemma_row_split(t, op, os, lo, mid, hi - 1);
        let m = row_form(t, op, os, mid, hi - 1);
        assert((items(op, a) + items(op, m)) + items(op, z) =~= items(op, a) + (items(op, m) + items(
            op,
            z,
        )));
    }
}

/// A row is reached from its first operand.
proof fn lemma_row_reached(
    t: Table,
    b: Seq<u8>,
    op: TokenKind,
    os: Seq<ChainOperand>,
    lo: int,
    hi: int,
)
    requires
        t.infix_of(op) is Some,
        t.postfix_of(op) is None,
        t.left_power(op) > 0,
        in_a_row(t, b, op, os),
        all_stand(t, b, op, os),
        0 <= lo < hi <= os.len(),
    ensures
        reached(
            t,
            b,
            os[lo].start_byte as int,
            row_form(t, op, os, lo, hi),
            ends_at(os[hi - 1]),
            row_spine(t, op, os, lo, hi),
        ),
    decreases hi - lo,
{
    assert(stands_in(t, b, op, os, lo));
    if hi > lo + 1 {
        lemma_row_reached(t, b, op, os, lo, hi - 1);
        let f = row_form(t, op, os, lo, hi - 1);
        let e = ends_at(os[hi - 2]);
        let last = os[hi - 1];
        assert(follows(t, b, op, os, hi - 1));
        assert(step(t, b, e, f) == Some(
            (row_form(t, op, os, lo, hi), ends_at(last), t.left_power(op)),
        ));
        lemma_reached_step(
            t,
            b,
            os[lo].start_byte as int,
            f,
            e,
            row_spine(t, op, os, lo, hi - 1),
        );
    }
}

/// `r` is the tree of operands `lo..hi` that is split in halves at each node,
/// the left one longer by at most one operand.
pub open spec fn is_balanced(
    op: TokenKind,
    os: Seq<ChainOperand>,
    lo: int,
    hi: int,
    power: u32,
    r: Arc<Node>,
) -> bool
    decreases hi - lo,
{
    if hi <= lo + 1 {
        r == os[lo].node
    } else {
        let mid = lo + (hi - lo + 1) / 2;
        &&& r.kind matches NodeKind::Binary { op: o, left, right } && {
            &&& o == op
            &&& is_balanced(op, os, lo, mid, power, left)
            &&& is_balanced(op, os, mid, hi, power, right)
        }
        &&& r.width == ends_at(os[hi - 1]) - os[lo].start_byte
        &&& r.m_spine == least(os[lo].node.m_spine, power)
        &&& r.stop_lbp == os[hi - 1].node.stop_lbp
        &&& r.m_floor == power - 1
    }
}

/// Operand `i` of a chain parsed at `m` was parsed without reuse, and is one
/// operand of it, unless it takes what follows.
pub open spec fn settled(t: Table, op: TokenKind, n: Arc<Node>, m: u32, i: int) -> bool {
    &&& i == 0 || closes(t, op) ==> share(t, op, n) == 1
    &&& if i == 0 {
        laid(t, *n, m, false)
    } else {
        laid(t, *n, t.right_power(op), true)
    }
}

/// All operands of a chain were parsed so.
pub open spec fn all_settled(t: Table, op: TokenKind, os: Seq<ChainOperand>, m: u32) -> bool {
    forall|i: int| 0 <= i < os.len() ==> settled(t, op, (#[trigger] os[i]).node, m, i)
}

/// A balanced tree of operands `lo..hi`. Its left edge binds as the operator
/// and the first operand do, its right edge as the last operand does.
pub fn build_balanced(
    op: TokenKind,
    operands: &Vec<ChainOperand>,
    lo: usize,
    hi: usize,
    chain_lbp: u32,
    Ghost(t): Ghost<Table>,
    Ghost(b): Ghost<Seq<u8>>,
    Ghost(m): Ghost<u32>,
) -> (r: Arc<Node>)
    requires
        lo < hi <= operands@.len(),
        t.wf(),
        b.len() <= u32::MAX,
        t.regroups(op),
        t.infix_of(op) is Some,
        t.postfix_of(op) is None,
        chain_lbp == t.left_power(op),
        chain_lbp > 0,
        in_a_row(t, b, op, operands@),
        forall|i: int, j: int|
            0 <= i <= j < operands@.len() ==> #[trigger] up_to(operands@, i, j),
        all_stand(t, b, op, operands@),
    ensures
        is_balanced(op, operands@, lo as int, hi as int, chain_lbp, r),
        closes(t, op) && all_settled(t, op, operands@, m) ==> laid_part(t, op, *r, m, lo == 0)
            && share(t, op, r) == hi - lo,
        form(t, r) == row_form(t, op, operands@, lo as int, hi as int),
        operands@[lo as int].start_byte + r.width == ends_at(operands@[hi - 1]),
        r.stop_lbp == operands@[hi - 1].node.stop_lbp,
        hi > lo + 1 ==> r.kind is Binary,
        r.m_spine == row_spine(t, op, operands@, lo as int, hi as int),
        tree_stands(t, b, operands@[lo as int].start_byte as int, r),
    decreases hi - lo,
{
    let ghost os = operands@;
    if hi - lo == 1 {
        proof {
            assert(stands_in(t, b, op, os, lo as int));
            assert(up_to(os, lo as int, lo as int));
            lemma_share(t, op, os[lo as int].node);
            if all_settled(t, op, os, m) {
                assert(settled(t, op, os[lo as int].node, m, lo as int));
            }
        }
        return operands[lo].node.clone();
    }
    let n: usize = hi - lo;
    let mid: usize = lo + n / 2 + n % 2;
    let left = build_balanced(op, operands, lo, mid, chain_lbp, Ghost(t), Ghost(b), Ghost(m));
    let right = build_balanced(op, operands, mid, hi, chain_lbp, Ghost(t), Ghost(b), Ghost(m));
    let start: u32 = operands[lo].start_byte;
    proof {
        assert(up_to(os, lo as int, hi - 1));
    }
    let end: u32 = operands[hi - 1].start_byte + operands[hi - 1].node.width;
    let first: u32 = operands[lo].node.m_spine;
    let spine: u32 = if chain_lbp < first {
        chain_lbp
    } else {
        first
    };
    let r = Arc::new(
        Node {
            kind: NodeKind::Binary { op, left, right },
            width: end - start,
            m_spine: spine,
            stop_lbp: operands[hi - 1].node.stop_lbp,
            m_floor: chain_lbp - 1,
        },
    );
    proof {
        lemma_row_split(t, op, os, lo as int, mid as int, hi as int);
        lemma_balanced_stands(t, b, op, os, lo as int, mid as int, hi as int, left, right, r);
    }
    r
}

/// How the operands of a whole chain are laid out.
pub proof fn lemma_chain_laid(
    t: Table,
    op: TokenKind,
    os: Seq<ChainOperand>,
    power: u32,
    r: Arc<Node>,
    m: u32,
)
    requires
        t.regroups(op),
        os.len() >= 2,
        power == t.left_power(op),
        is_balanced(op, os, 0, os.len() as int, power, r),
        closes(t, op) || os.len() == 2,
        closes(t, op) && all_settled(t, op, os, m) ==> laid_part(t, op, *r, m, true),
    ensures
        all_settled(t, op, os, m) ==> laid(t, *r, m, false),
{
    if all_settled(t, op, os, m) && !closes(t, op) {
        assert(settled(t, op, os[0].node, m, 0));
        assert(settled(t, op, os[1].node, m, 1));
        if let NodeKind::Binary { op: o, left, right } = r.kind {
            assert(is_balanced(op, os, 0, 1, power, left));
            assert(is_balanced(op, os, 1, 2, power, right));
        }
    }
}

proof fn lemma_balanced_stands(
    t: Table,
    b: Seq<u8>,
    op: TokenKind,
    os: Seq<ChainOperand>,
    lo: int,
    mid: int,
    hi: int,
    left: Arc<Node>,
    right: Arc<Node>,
    n: Arc<Node>,
)
    requires
        t.wf(),
        b.len() <= u32::MAX,
        t.regroups(op),
        t.infix_of(op) is Some,
        t.postfix_of(op) is None,
        t.left_power(op) > 0,
        in_a_row(t, b, op, os),
        all_stand(t, b, op, os),
        0 <= lo < mid < hi <= os.len(),
        tree_stands(t, b, os[lo].start_byte as int, left),
        tree_stands(t, b, os[mid].start_byte as int, right),
        os[lo].start_byte + left.width == ends_at(os[mid - 1]),
        os[mid].start_byte + right.width == ends_at(os[hi - 1]),
        n.kind == (NodeKind::Binary { op, left, right }),
        os[lo].start_byte + n.width == ends_at(os[hi - 1]),
        form(t, n) == row_form(t, op, os, lo, hi),
        n.m_spine == row_spine(t, op, os, lo, hi),
        n.stop_lbp == os[hi - 1].node.stop_lbp,
        n.m_floor == t.left_power(op) - 1,
    ensures
        tree_stands(t, b, os[lo].start_byte as int, n),
{
    let s = os[lo].start_byte as int;
    lemma_row_reached(t, b, op, os, lo, hi);
    assert(stands(t, b, s, *left));
    assert(stands(t, b, os[mid].start_byte as int, *right));
    assert(stands_in(t, b, op, os, hi - 1));
    assert(stands(t, b, os[hi - 1].start_byte as int, *os[hi - 1].node));
    assert(follows(t, b, op, os, mid));
    lemma_next_token(t, b, s + left.width);
    lemma_next_token(t, b, next_token(t, b, s + left.width).end as int);
}

} // verus!
