//! The reuse predicate on its own, over bytes: evaluated in one go and by its
//! four conditions.

use vstd::prelude::*;

use crate::runtime::cursor::{is_space, longest_symbol, stands_at};
use crate::runtime::table::{Table, TokenKind, LBP_NONE};
use crate::ascii::{NEWLINE, RETURN, SPACE, TAB};

verus! {

/// What reuse needs of a subtree.
#[derive(Clone, Copy)]
pub struct VNode {
    pub start: usize,
    pub end: usize,
    pub m_spine: u32,
    pub stop_lbp: u32,
}

/// `removed` bytes at `start` are replaced by `added` others.
#[derive(Clone, Copy)]
pub struct VEdit {
    pub start: usize,
    pub added: usize,
    pub removed: usize,
}

impl VEdit {
    pub open spec fn fits(&self) -> bool {
        self.start + self.removed <= usize::MAX
    }

    /// Where the byte at `p` is after the edit.
    pub open spec fn moved(&self, p: int) -> Option<int> {
        if p < self.start {
            Some(p)
        } else if p >= self.start + self.removed {
            Some(p + self.added - self.removed)
        } else {
            None
        }
    }
}

/// Where the byte at `old_pos` is after the edit; `None` in the edited range.
pub fn translate(edit: VEdit, old_pos: usize) -> (r: Option<usize>)
    requires
        edit.moved(old_pos as int) matches Some(p) ==> p <= usize::MAX,
    ensures
        match r {
            Some(p) => edit.moved(old_pos as int) == Some(p as int),
            None => edit.moved(old_pos as int) is None,
        },
{
    if old_pos < edit.start {
        Some(old_pos)
    } else if old_pos - edit.start >= edit.removed {
        Some(old_pos - edit.removed + edit.added)
    } else {
        None
    }
}

/// The byte at `p`, if there is one.
pub open spec fn byte_in(b: Seq<u8>, p: int) -> Option<u8> {
    if 0 <= p < b.len() {
        Some(b[p])
    } else {
        None
    }
}

pub open spec fn byte_in_opt(b: Seq<u8>, p: Option<int>) -> Option<u8> {
    match p {
        Some(i) => byte_in(b, i),
        None => None,
    }
}

fn byte_at(src: &[u8], pos: usize) -> (r: Option<u8>)
    ensures
        r == byte_in(src@, pos as int),
{
    if pos < src.len() {
        Some(src[pos])
    } else {
        None
    }
}

fn byte_at_opt(src: &[u8], pos: Option<usize>) -> (r: Option<u8>)
    ensures
        r == (match pos {
            Some(p) => byte_in(src@, p as int),
            None => None,
        }),
{
    match pos {
        Some(p) => byte_at(src, p),
        None => None,
    }
}

fn same_byte(a: Option<u8>, b: Option<u8>) -> (r: bool)
    ensures
        r == (a == b),
{
    match (a, b) {
        (Some(x), Some(y)) => x == y,
        (None, None) => true,
        _ => false,
    }
}

/// The first byte at or after `pos` that is no white space.
pub open spec fn past_space(b: Seq<u8>, pos: int) -> int
    decreases b.len() - pos,
{
    if 0 <= pos < b.len() && is_space(b[pos]) {
        past_space(b, pos + 1)
    } else {
        pos
    }
}

impl Table {
    /// Binding power of the symbol after `pos` and white space; 0 if there is
    /// none.
    pub open spec fn power_after(&self, b: Seq<u8>, pos: int) -> u32 {
        let p = past_space(b, pos);
        if p >= b.len() {
            LBP_NONE
        } else {
            match longest_symbol(*self, b, p, self.syms@.len() as int) {
                Some(k) => self.left_power(TokenKind::Sym(k as u32)),
                None => LBP_NONE,
            }
        }
    }
}

/// Whether `text` stands at byte `i`.
fn matches_at(src: &[u8], i: usize, text: &Vec<u8>) -> (r: bool)
    requires
        i <= src@.len(),
    ensures
        r == stands_at(src@, i as int, text@),
{
    let len: usize = src.len();
    if text.len() > len - i {
        return false;
    }
    let mut k: usize = 0;
    while k < text.len()
        invariant
            k <= text@.len(),
            len == src@.len(),
            i + text@.len() <= len,
            forall|j: int| 0 <= j < k ==> src@[i + j] == #[trigger] text@[j],
        decreases text@.len() - k,
    {
        if src[i + k] != text[k] {
            assert(src@.subrange(i as int, i + text@.len())[k as int] != text@[k as int]);
            return false;
        }
        k = k + 1;
    }
    assert(src@.subrange(i as int, i + text@.len()) =~= text@);
    true
}

/// Binding power of the symbol after `pos` and white space; 0 if there is
/// none.
pub fn next_token_lbp(t: &Table, src: &[u8], pos: usize) -> (r: u32)
    requires
        t.wf(),
    ensures
        r == t.power_after(src@, pos as int),
{
    let mut p: usize = pos;
    while p < src.len() && (src[p] == SPACE || src[p] == TAB || src[p] == NEWLINE || src[p]
        == RETURN)
        invariant
            past_space(src@, pos as int) == past_space(src@, p as int),
        decreases src@.len() - p,
    {
        p = p + 1;
    }
    if p >= src.len() {
        return LBP_NONE;
    }
    let mut best: Option<usize> = None;
    let mut n: usize = 0;
    while n < t.syms.len()
        invariant
            n <= t.syms@.len(),
            p < src@.len(),
            match best {
                Some(k) => longest_symbol(*t, src@, p as int, n as int) == Some(k as int) && k < n,
                None => longest_symbol(*t, src@, p as int, n as int) is None,
            },
        decreases t.syms@.len() - n,
    {
        if matches_at(src, p, &t.syms[n].text) {
            let better: bool = match best {
                Some(k) => t.syms[n].text.len() > t.syms[k].text.len(),
                None => true,
            };
            if better {
                best = Some(n);
            }
        }
        n = n + 1;
    }
    match best {
        Some(k) => t.lbp(TokenKind::Sym(k as u32)),
        None => LBP_NONE,
    }
}

// ---- The four conditions -----------------------------------------------

/// The precedence asked for is in the subtree's band.
pub open spec fn in_band(n: VNode, m_new: u32) -> bool {
    n.stop_lbp <= m_new < n.m_spine
}

/// The edit does not touch the subtree.
pub open spec fn disjoint(n: VNode, e: VEdit) -> bool {
    n.end <= e.start || n.start >= e.start + e.removed
}

/// The bytes next to the subtree are what they were.
pub open spec fn same_boundaries(n: VNode, e: VEdit, old: Seq<u8>, new: Seq<u8>) -> bool {
    &&& n.start == 0 || byte_in(old, n.start - 1) == byte_in_opt(new, e.moved(n.start - 1))
    &&& byte_in(old, n.end as int) == byte_in_opt(new, e.moved(n.end as int))
}

/// What follows the subtree binds as before.
pub open spec fn same_next(t: Table, n: VNode, e: VEdit, new: Seq<u8>) -> bool {
    e.moved(n.end as int) matches Some(p) && t.power_after(new, p) == n.stop_lbp
}

pub fn spec_band(n: VNode, m_new: u32) -> (r: bool)
    ensures
        r == in_band(n, m_new),
{
    n.stop_lbp <= m_new && m_new < n.m_spine
}

pub fn spec_disjoint(n: VNode, e: VEdit) -> (r: bool)
    requires
        e.fits(),
    ensures
        r == disjoint(n, e),
{
    n.end <= e.start || n.start >= e.start + e.removed
}

pub fn spec_boundaries(n: VNode, e: VEdit, old_src: &[u8], new_src: &[u8]) -> (r: bool)
    requires
        e.fits(),
        n.start <= n.end,
        n.end + e.added <= usize::MAX,
    ensures
        r == same_boundaries(n, e, old_src@, new_src@),
{
    let before: bool = n.start == 0 || same_byte(
        byte_at(old_src, n.start - 1),
        byte_at_opt(new_src, translate(e, n.start - 1)),
    );
    let after: bool = same_byte(
        byte_at(old_src, n.end),
        byte_at_opt(new_src, translate(e, n.end)),
    );
    before && after
}

pub fn spec_next_token(t: &Table, n: VNode, e: VEdit, new_src: &[u8]) -> (r: bool)
    requires
        t.wf(),
        e.fits(),
        n.end + e.added <= usize::MAX,
    ensures
        r == same_next(*t, n, e, new_src@),
{
    match translate(e, n.end) {
        Some(p) => next_token_lbp(t, new_src, p) == n.stop_lbp,
        None => false,
    }
}

/// Whether the subtree `n` may be reused where the parser asks for `m_new`:
/// exactly if the four conditions hold.
pub fn reuse_predicate(t: &Table, n: VNode, m_new: u32, e: VEdit, old_src: &[u8], new_src: &[u8]) -> (r:
    bool)
    requires
        t.wf(),
        e.fits(),
        n.start <= n.end,
        n.end + e.added <= usize::MAX,
    ensures
        r == (in_band(n, m_new) && disjoint(n, e) && same_boundaries(n, e, old_src@, new_src@)
            && same_next(*t, n, e, new_src@)),
{
    if !(n.stop_lbp <= m_new && m_new < n.m_spine) {
        return false;
    }
    if n.end > e.start && n.start < e.start + e.removed {
        return false;
    }
    if n.start > 0 {
        let was: Option<u8> = byte_at(old_src, n.start - 1);
        let is: Option<u8> = byte_at_opt(new_src, translate(e, n.start - 1));
        if !same_byte(was, is) {
            return false;
        }
    }
    let was: Option<u8> = byte_at(old_src, n.end);
    let is: Option<u8> = byte_at_opt(new_src, translate(e, n.end));
    if !same_byte(was, is) {
        return false;
    }
    match translate(e, n.end) {
        Some(p) => next_token_lbp(t, new_src, p) == n.stop_lbp,
        None => false,
    }
}

} // verus!
