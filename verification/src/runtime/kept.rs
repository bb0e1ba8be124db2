//! What the reuse predicate over bytes keeps and what it drops.

use std::sync::Arc;

use vstd::prelude::*;

use crate::runtime::ast::{form, Form, Node};
use crate::runtime::grammar::{expr, lemma_expr, lemma_reached, stands, ParseError};
use crate::runtime::table::Table;
use crate::runtime::verify::{byte_in, byte_in_opt, disjoint, in_band, same_boundaries, VEdit, VNode};

verus! {

/// `new` is `old` with the bytes of the edit replaced.
pub open spec fn edited(e: VEdit, old: Seq<u8>, new: Seq<u8>) -> bool {
    &&& e.start + e.removed <= old.len()
    &&& new.len() == old.len() - e.removed + e.added
    &&& forall|i: int| 0 <= i < e.start ==> #[trigger] new[i] == old[i]
    &&& forall|i: int|
        e.start + e.added <= i < new.len() ==> #[trigger] new[i] == old[i - e.added + e.removed]
}

/// A byte outside the edit is found where it is moved to; one inside is found nowhere.
pub proof fn law_byte_moved(e: VEdit, old: Seq<u8>, new: Seq<u8>, i: int)
    requires
        edited(e, old, new),
        0 <= i < old.len(),
    ensures
        e.moved(i) is None <==> e.start <= i < e.start + e.removed,
        e.moved(i) is Some ==> byte_in_opt(new, e.moved(i)) == Some(old[i]),
        e.moved(i) is None ==> byte_in_opt(new, e.moved(i)) is None,
{
    if i >= e.start + e.removed {
        let j = i + e.added - e.removed;
        assert(new[j] == old[j - e.added + e.removed]);
    }
}

/// A subtree that the edit leaves alone, a byte between them, may be reused exactly if the
/// precedence is in its band and what follows it binds as before.
pub proof fn law_reuse_apart(n: VNode, e: VEdit, old: Seq<u8>, new: Seq<u8>)
    requires
        edited(e, old, new),
        n.start <= n.end <= old.len(),
        n.end < e.start || e.start + e.removed < n.start,
    ensures
        disjoint(n, e),
        same_boundaries(n, e, old, new),
        e.moved(n.end as int) == Some(
            if n.end < e.start {
                n.end as int
            } else {
                n.end + new.len() - old.len()
            },
        ),
{
    if n.start > 0 {
        law_byte_moved(e, old, new, n.start - 1);
    }
    if n.end < old.len() {
        law_byte_moved(e, old, new, n.end as int);
    }
}

/// A subtree is not reused if a byte of it was replaced, or the one before or after it.
pub proof fn law_reuse_touched(n: VNode, e: VEdit, old: Seq<u8>, new: Seq<u8>, i: int)
    requires
        edited(e, old, new),
        n.start <= n.end <= old.len(),
        n.start - 1 <= i <= n.end,
        0 <= i < old.len(),
        e.start <= i < e.start + e.removed,
    ensures
        !(disjoint(n, e) && same_boundaries(n, e, old, new)),
{
    law_byte_moved(e, old, new, i);
    assert(byte_in(old, i) == Some(old[i]));
}

/// Below the operators on its spine, the band of a subtree is exactly where parsing gives
/// the subtree and stops at its end.
pub proof fn law_band(t: Table, b: Seq<u8>, s: int, n: Arc<Node>, v: VNode, m: u32)
    requires
        t.wf(),
        b.len() <= u32::MAX,
        stands(t, b, s, *n),
        v.start == s,
        v.end == s + n.width,
        v.m_spine == n.m_spine,
        v.stop_lbp == n.stop_lbp,
    ensures
        in_band(v, m) ==> expr(t, b, s, m) == Ok::<(Form, int), ParseError>(
            (form(t, n), s + n.width),
        ),
        m < n.m_spine && expr(t, b, s, m) == Ok::<(Form, int), ParseError>(
            (form(t, n), s + n.width),
        ) ==> in_band(v, m),
        m >= n.m_spine ==> !in_band(v, m),
{
    lemma_reached(t, b, s, form(t, n), s + n.width, n.m_spine, m);
    lemma_expr(t, b, s, m);
}

} // verus!
