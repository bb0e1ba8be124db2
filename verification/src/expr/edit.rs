//! Edits: replace the byte range `[start, end)` of a source.

use vstd::prelude::*;
use vstd::string::*;
use vstd::utf8::*;

verus! {

#[derive(Debug, Clone)]
pub struct Edit {
    pub start: u32,
    pub end: u32,
    pub replacement: String,
}

/// The UTF-8 bytes of a string.
pub open spec fn bytes_of(s: String) -> Seq<u8> {
    encode_utf8(s@)
}

/// `src` with `[start, end)` replaced by `repl`.
pub open spec fn splice(src: Seq<u8>, start: int, end: int, repl: Seq<u8>) -> Seq<u8> {
    src.subrange(0, start) + repl + src.subrange(end, src.len() as int)
}

impl Edit {
    /// Length change the edit makes.
    pub open spec fn delta(&self) -> int {
        bytes_of(self.replacement).len() - (self.end - self.start)
    }

    /// The source after the edit.
    pub open spec fn applied(&self, src: Seq<u8>) -> Seq<u8> {
        splice(src, self.start as int, self.end as int, bytes_of(self.replacement))
    }

    /// The edit's range lies in `src`, at character boundaries.
    pub open spec fn in_range(&self, src: Seq<u8>) -> bool {
        &&& self.start <= self.end <= src.len()
        &&& is_char_boundary(src, self.start as int)
        &&& is_char_boundary(src, self.end as int)
    }

    /// Both the source and the edited source have 32-bit offsets.
    pub open spec fn small(&self, src: Seq<u8>) -> bool {
        src.len() <= u32::MAX && src.len() + self.delta() <= u32::MAX
    }

    /// Where the byte at `old` is after the edit, if it is still there.
    pub open spec fn moved(&self, old: int) -> Option<int> {
        if old < self.start {
            Some(old)
        } else if old >= self.end {
            Some(old + self.delta())
        } else {
            None
        }
    }

    /// No byte of `[lo, hi)` is edited.
    pub open spec fn untouched(&self, lo: int, hi: int) -> bool {
        hi <= self.start || lo >= self.end
    }
}

/// Encoding distributes over concatenation.
pub proof fn lemma_encode_concat(a: Seq<char>, b: Seq<char>)
    ensures
        encode_utf8(a + b) == encode_utf8(a) + encode_utf8(b),
    decreases a.len(),
{
    if a.len() == 0 {
        assert(a + b =~= b);
        assert(encode_utf8(a) + encode_utf8(b) =~= encode_utf8(b));
    } else {
        assert((a + b).drop_first() =~= a.drop_first() + b);
        lemma_encode_concat(a.drop_first(), b);
        assert((a + b)[0] == a[0]);
        assert(encode_utf8(a + b) =~= encode_utf8(a) + encode_utf8(b));
    }
}

impl Edit {
    /// Apply the edit to `src`.
    pub fn apply(&self, src: &str) -> (r: String)
        requires
            self.in_range(src.spec_bytes()),
        ensures
            bytes_of(r) == self.applied(src.spec_bytes()),
            r@ == decode_utf8(self.applied(src.spec_bytes())),
    {
        let (head, _) = src.split_at(self.start as usize);
        let (_, tail) = src.split_at(self.end as usize);
        let mut out: String = head.to_owned();
        out.append(self.replacement.as_str());
        out.append(tail);
        proof {
            lemma_encode_concat(head@ + self.replacement@, tail@);
            lemma_encode_concat(head@, self.replacement@);
            encode_utf8_decode_utf8(out@);
        }
        out
    }

    /// Map an old byte offset to its position after the edit; `None` inside
    /// the edited range.
    pub fn map_old_to_new(&self, old_offset: u32) -> (r: Option<u32>)
        requires
            self.start <= self.end,
            old_offset >= self.end ==> old_offset + self.delta() <= u32::MAX,
        ensures
            match r {
                Some(x) => self.moved(old_offset as int) == Some(x as int),
                None => self.moved(old_offset as int) is None,
            },
    {
        if old_offset < self.start {
            Some(old_offset)
        } else if old_offset >= self.end {
            Some((old_offset - self.end + self.start) + self.replacement.as_str().len() as u32)
        } else {
            None
        }
    }

    /// Whether the old range `[old_start, old_end)` is entirely outside the
    /// edit.
    pub fn old_range_unchanged(&self, old_start: u32, old_end: u32) -> (r: bool)
        ensures
            r == self.untouched(old_start as int, old_end as int),
    {
        old_end <= self.start || old_start >= self.end
    }

    /// Translate an unchanged old range to its position after the edit;
    /// `None` if any byte of it was edited.
    pub fn translate_old_range(&self, old_start: u32, old_end: u32) -> (r: Option<(u32, u32)>)
        requires
            self.start <= self.end,
            old_start >= self.end ==> old_start + self.delta() <= u32::MAX,
            old_start >= self.end && old_end > self.start ==> 0 <= old_end + self.delta()
                <= u32::MAX,
        ensures
            match r {
                Some((ns, ne)) => {
                    &&& self.untouched(old_start as int, old_end as int)
                    &&& self.moved(old_start as int) == Some(ns as int)
                    &&& ne == (if old_end == old_start {
                        ns as int
                    } else if old_end <= self.start {
                        old_end as int
                    } else {
                        old_end + self.delta()
                    })
                },
                None => !self.untouched(old_start as int, old_end as int) || self.moved(
                    old_start as int,
                ) is None,
            },
    {
        if !self.old_range_unchanged(old_start, old_end) {
            return None;
        }
        let ns: u32 = match self.map_old_to_new(old_start) {
            Some(x) => x,
            None => {
                return None;
            },
        };
        let ne: u32 = if old_end == old_start {
            ns
        } else if old_end <= self.start {
            old_end
        } else {
            let d: i64 = self.replacement.as_str().len() as i64 - (self.end - self.start) as i64;
            (old_end as i64 + d) as u32
        };
        Some((ns, ne))
    }
}

/// An offset outside the edited range keeps its byte.
pub proof fn law_moved_byte(edit: &Edit, src: Seq<u8>, old: int)
    requires
        edit.start <= edit.end <= src.len(),
        0 <= old < src.len(),
        edit.moved(old) is Some,
    ensures
        0 <= edit.moved(old)->0 < edit.applied(src).len(),
        edit.applied(src)[edit.moved(old)->0] == src[old],
{
}

/// The edited source is longer by `delta`.
pub proof fn law_applied_len(edit: &Edit, src: Seq<u8>)
    requires
        edit.start <= edit.end <= src.len(),
    ensures
        edit.applied(src).len() == src.len() + edit.delta(),
{
}

/// A range is untouched by an edit that does something exactly if its bytes all stay, and
/// stay together.
pub proof fn law_untouched(e: Edit, lo: int, hi: int)
    requires
        e.start <= e.end,
        e.start < e.end || bytes_of(e.replacement).len() > 0,
        0 <= lo < hi,
    ensures
        e.untouched(lo, hi) <==> {
            &&& forall|i: int| lo <= i < hi ==> #[trigger] e.moved(i) is Some
            &&& e.moved(hi - 1) is Some && e.moved(lo) is Some && e.moved(hi - 1)->0
                - e.moved(lo)->0 == hi - 1 - lo
        },
{
    if !e.untouched(lo, hi) && e.start < e.end {
        let i = if lo < e.start {
            e.start as int
        } else {
            lo
        };
        assert(e.moved(i) is None);
    }
}

} // verus!
