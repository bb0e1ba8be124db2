//! Sources and edits to measure reparsing by.

use vstd::prelude::*;
use vstd::string::*;

verus! {

/// A nested expression: two of the next lower depth joined by an operator in
/// brackets, down to atoms.
pub open spec fn nested_text(
    d: nat,
    atom: Seq<char>,
    infix: Seq<char>,
    open: Seq<char>,
    close: Seq<char>,
) -> Seq<char>
    decreases d,
{
    if d == 0 {
        atom
    } else {
        let x = nested_text((d - 1) as nat, atom, infix, open, close);
        open + x + infix + x + close
    }
}

/// A nested expression of depth `d`.
pub fn nested(d: u32, atom: &str, infix: &str, open: &str, close: &str) -> (out: String)
    ensures
        out@ == nested_text(d as nat, atom@, infix@, open@, close@),
    decreases d,
{
    if d == 0 {
        return atom.to_owned();
    }
    let x: String = nested(d - 1, atom, infix, open, close);
    let mut out: String = open.to_owned();
    out.append(x.as_str());
    out.append(infix);
    out.append(x.as_str());
    out.append(close);
    out
}

/// Places of byte `b` among the first `n`.
pub open spec fn places_of(s: Seq<u8>, b: u8, n: int) -> Seq<int>
    decreases n,
{
    if n <= 0 {
        Seq::empty()
    } else if s[n - 1] == b {
        places_of(s, b, n - 1).push(n - 1)
    } else {
        places_of(s, b, n - 1)
    }
}

/// Where the first byte of `atom` stands in `src`.
pub fn leaf_positions(src: &str, atom: &str) -> (out: Vec<u32>)
    requires
        atom.spec_bytes().len() > 0,
        src.spec_bytes().len() <= u32::MAX,
    ensures
        out@.len() == places_of(
            src.spec_bytes(),
            atom.spec_bytes()[0],
            src.spec_bytes().len() as int,
        ).len(),
        forall|i: int|
            0 <= i < out@.len() ==> #[trigger] out@[i] == places_of(
                src.spec_bytes(),
                atom.spec_bytes()[0],
                src.spec_bytes().len() as int,
            )[i],
{
    let b = src.as_bytes();
    let a: u8 = atom.as_bytes()[0];
    let n: usize = b.len();
    let mut out: Vec<u32> = Vec::new();
    let mut i: usize = 0;
    while i < n
        invariant
            n == b@.len(),
            n <= u32::MAX,
            i <= n,
            out@.len() == places_of(b@, a, i as int).len(),
            forall|k: int|
                0 <= k < out@.len() ==> #[trigger] out@[k] == places_of(b@, a, i as int)[k],
        decreases n - i,
    {
        if b[i] == a {
            out.push(i as u32);
        }
        i = i + 1;
    }
    out
}

/// A small deterministic generator of numbers.
#[derive(Debug, Clone, Copy)]
pub struct Rng(pub u64);

/// The number after `x`.
pub open spec fn xorshift(x: u64) -> u64 {
    let a = x ^ (x << 13);
    let b = a ^ (a >> 7);
    b ^ (b << 17)
}

impl Rng {
    pub fn next(&mut self) -> (r: u64)
        ensures
            r == xorshift(old(self).0),
            final(self).0 == r,
    {
        let x: u64 = self.0;
        let a: u64 = x ^ (x << 13);
        let b: u64 = a ^ (a >> 7);
        let r: u64 = b ^ (b << 17);
        self.0 = r;
        r
    }

    /// A number below `n`.
    pub fn below(&mut self, n: usize) -> (r: usize)
        requires
            n > 0,
        ensures
            r == xorshift(old(self).0) % (n as u64),
            r < n,
            final(self).0 == xorshift(old(self).0),
    {
        let x: u64 = self.next();
        (x % n as u64) as usize
    }
}

} // verus!
