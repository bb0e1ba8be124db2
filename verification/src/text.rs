//! Parts of strings.

use vstd::prelude::*;
use vstd::string::*;
use vstd::utf8::*;

use crate::expr::lexer::lemma_boundary_shift;

verus! {

/// The part of `src` from byte `start` to byte `end`.
pub fn slice<'a>(src: &'a str, start: usize, end: usize) -> (r: &'a str)
    requires
        start <= end <= src.spec_bytes().len(),
        is_char_boundary(src.spec_bytes(), start as int),
        is_char_boundary(src.spec_bytes(), end as int),
    ensures
        r.spec_bytes() == src.spec_bytes().subrange(start as int, end as int),
        r@ == decode_utf8(src.spec_bytes().subrange(start as int, end as int)),
{
    let ghost s = src.spec_bytes();
    proof {
        encode_utf8_valid_utf8(src@);
    }
    let (_, tail) = src.split_at(start);
    let ghost t = tail.spec_bytes();
    proof {
        lemma_boundary_shift(s, start as int, end as int);
        assert(t =~= s.subrange(start as int, s.len() as int));
    }
    let (r, _) = tail.split_at(end - start);
    proof {
        assert(t.subrange(0, end - start) =~= s.subrange(start as int, end as int));
        encode_utf8_decode_utf8(r@);
    }
    r
}

} // verus!
