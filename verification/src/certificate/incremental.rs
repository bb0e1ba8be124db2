//! The reuse predicate: when a subtree of the old parse may stand in the new.

use vstd::prelude::*;

use crate::certificate::lexer::{next_token_lbp, next_token_lbp_logic, ByteIndex};
use crate::certificate::parser::{batch_parse, parsed, BindingPower, Node, ParseTree};

verus! {

/// `removed` bytes at `start` are replaced by `added` others.
#[derive(Debug, Clone, Copy)]
pub struct Edit {
    pub start: ByteIndex,
    pub added: usize,
    pub removed: usize,
}

/// Where the byte at `old_pos` is after the edit; `None` in the edited range.
pub open spec fn translate_logic(edit: Edit, old_pos: int) -> Option<int> {
    if old_pos < edit.start {
        Some(old_pos)
    } else if old_pos >= edit.start + edit.removed {
        Some(old_pos + edit.added - edit.removed)
    } else {
        None
    }
}

/// The byte at `pos`, if there is one.
pub open spec fn byte_at(src: Seq<u8>, pos: int) -> Option<u8> {
    if 0 <= pos < src.len() {
        Some(src[pos])
    } else {
        None
    }
}

pub open spec fn byte_at_opt(src: Seq<u8>, pos: Option<int>) -> Option<u8> {
    match pos {
        Some(p) => byte_at(src, p),
        None => None,
    }
}

/// The new minimum precedence lies in the subtree's band.
pub open spec fn cond_precedence_band(t_old: Node, m_new: BindingPower) -> bool {
    t_old.stop_lbp <= m_new && m_new < t_old.m_spine
}

/// The edit does not touch the subtree.
pub open spec fn cond_disjoint_region(t_old: Node, edit: Edit) -> bool {
    t_old.end <= edit.start || t_old.start >= edit.start + edit.removed
}

/// The bytes next to the subtree are what they were.
pub open spec fn cond_boundaries_match(
    t_old: Node,
    edit: Edit,
    old_src: Seq<u8>,
    new_src: Seq<u8>,
) -> bool {
    &&& t_old.start == 0 || byte_at(old_src, t_old.start - 1) == byte_at_opt(
        new_src,
        translate_logic(edit, t_old.start - 1),
    )
    &&& byte_at(old_src, t_old.end as int) == byte_at_opt(
        new_src,
        translate_logic(edit, t_old.end as int),
    )
}

/// The token after the subtree binds as the one that ended it.
pub open spec fn cond_next_token_lbp(t_old: Node, edit: Edit, new_src: Seq<u8>) -> bool {
    translate_logic(edit, t_old.end as int) matches Some(p) && next_token_lbp_logic(new_src, p)
        == t_old.stop_lbp
}

impl Edit {
    /// The range replaced.
    pub fn old_range(&self) -> (r: (ByteIndex, ByteIndex))
        requires
            self.start + self.removed <= usize::MAX,
        ensures
            r.0 == self.start,
            r.1 == self.start + self.removed,
    {
        (self.start, self.start + self.removed)
    }

    /// Where the byte at `old_pos` is after the edit.
    pub fn translate_to_new(&self, old_pos: ByteIndex) -> (r: Option<ByteIndex>)
        requires
            self.start + self.removed <= usize::MAX,
            old_pos + self.added <= usize::MAX,
        ensures
            match r {
                Some(p) => translate_logic(*self, old_pos as int) == Some(p as int),
                None => translate_logic(*self, old_pos as int) is None,
            },
    {
        if old_pos < self.start {
            Some(old_pos)
        } else if old_pos >= self.start + self.removed {
            Some(old_pos + self.added - self.removed)
        } else {
            None
        }
    }
}

fn read_byte(src: &[u8], pos: usize) -> (r: Option<u8>)
    ensures
        r == byte_at(src@, pos as int),
{
    if pos < src.len() {
        Some(src[pos])
    } else {
        None
    }
}

/// Whether `pos` moves to a byte of `new_src` equal to that of `old_src`, or
/// neither has one there.
fn same_byte(edit: &Edit, pos: usize, old_src: &[u8], new_src: &[u8]) -> (r: bool)
    requires
        edit.start + edit.removed <= usize::MAX,
        pos + edit.added <= usize::MAX,
    ensures
        r == (byte_at(old_src@, pos as int) == byte_at_opt(
            new_src@,
            translate_logic(*edit, pos as int),
        )),
{
    let was: Option<u8> = read_byte(old_src, pos);
    let is: Option<u8> = match edit.translate_to_new(pos) {
        Some(p) => read_byte(new_src, p),
        None => None,
    };
    match (was, is) {
        (Some(x), Some(y)) => x == y,
        (None, None) => true,
        _ => false,
    }
}

/// Whether the subtree `t_old` may be reused where the parser asks for
/// `m_new`.
pub fn reuse_predicate(
    t_old: &Node,
    m_new: BindingPower,
    edit: &Edit,
    old_src: &[u8],
    new_src: &[u8],
) -> (r: bool)
    requires
        edit.start + edit.removed <= usize::MAX,
        t_old.end + edit.added <= usize::MAX,
        t_old.start <= t_old.end,
    ensures
        r == (cond_precedence_band(*t_old, m_new) && cond_disjoint_region(*t_old, *edit)
            && cond_boundaries_match(*t_old, *edit, old_src@, new_src@) && cond_next_token_lbp(
            *t_old,
            *edit,
            new_src@,
        )),
{
    if !(t_old.stop_lbp <= m_new && m_new < t_old.m_spine) {
        return false;
    }
    let (edit_start, edit_end) = edit.old_range();
    if t_old.end > edit_start && t_old.start < edit_end {
        return false;
    }
    if t_old.start > 0 && !same_byte(edit, t_old.start - 1, old_src, new_src) {
        return false;
    }
    if !same_byte(edit, t_old.end, old_src, new_src) {
        return false;
    }
    match edit.translate_to_new(t_old.end) {
        Some(p) => next_token_lbp(new_src, p) == t_old.stop_lbp,
        None => false,
    }
}

/// Parse the edited source.
pub fn reparse(t_old: &ParseTree, edit: &Edit, new_src: &[u8]) -> (r: Option<ParseTree>)
    ensures
        match r {
            Some(t) => parsed(new_src@) == Some((t.nodes@, t.root as int)) && t.wf(),
            None => parsed(new_src@) is None,
        },
{
    let _ = (t_old, edit);
    batch_parse(new_src)
}

} // verus!
