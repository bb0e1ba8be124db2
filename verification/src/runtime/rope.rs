//! Text in a rope. The functions here call the `ropey` crate; their contracts
//! are taken from its documentation.

use ropey::Rope;
use vstd::prelude::*;
use vstd::utf8::*;

verus! {

#[verifier::external_type_specification]
#[verifier::external_body]
pub struct ExRope(Rope);

/// The text that a rope holds.
pub uninterp spec fn rope_text(r: Rope) -> Seq<char>;

/// `Rope::from_str`: the rope holds the given text.
#[verifier::external_body]
pub(crate) fn rope_from_str(text: &str) -> (r: Rope)
    ensures
        rope_text(r) == text@,
{
    Rope::from_str(text)
}

/// `Rope::len_bytes`: the length of the text in UTF-8.
#[verifier::external_body]
pub(crate) fn rope_len_bytes(rope: &Rope) -> (r: usize)
    ensures
        r == encode_utf8(rope_text(*rope)).len(),
{
    rope.len_bytes()
}

/// `Rope::byte`: one byte of the text in UTF-8. It panics past the end.
#[verifier::external_body]
pub(crate) fn rope_byte(rope: &Rope, i: usize) -> (r: u8)
    requires
        i < encode_utf8(rope_text(*rope)).len(),
    ensures
        r == encode_utf8(rope_text(*rope))[i as int],
{
    rope.byte(i)
}

/// `Rope::byte_to_char`: the number of characters before the byte, where a
/// character starts there or the text ends. It panics past the end.
#[verifier::external_body]
pub(crate) fn rope_byte_to_char(rope: &Rope, byte: usize) -> (r: usize)
    requires
        byte <= encode_utf8(rope_text(*rope)).len(),
    ensures
        r <= rope_text(*rope).len(),
        is_char_boundary(encode_utf8(rope_text(*rope)), byte as int) ==> encode_utf8(
            rope_text(*rope).take(r as int),
        ).len() == byte,
{
    rope.byte_to_char(byte)
}

/// `Rope::remove`: the characters from `start` to `end` are gone. It panics
/// where the range is not one of the text.
#[verifier::external_body]
pub(crate) fn rope_remove(rope: &mut Rope, start: usize, end: usize)
    requires
        start <= end <= rope_text(*old(rope)).len(),
    ensures
        rope_text(*final(rope)) == rope_text(*old(rope)).take(start as int) + rope_text(
            *old(rope),
        ).skip(end as int),
{
    rope.remove(start..end)
}

/// `Rope::insert`: the text stands before character `at`. It panics past the
/// end.
#[verifier::external_body]
pub(crate) fn rope_insert(rope: &mut Rope, at: usize, text: &str)
    requires
        at <= rope_text(*old(rope)).len(),
    ensures
        rope_text(*final(rope)) == rope_text(*old(rope)).take(at as int) + text@ + rope_text(
            *old(rope),
        ).skip(at as int),
{
    rope.insert(at, text)
}

/// `Rope::to_string`: the text the rope holds.
#[verifier::external_body]
pub(crate) fn rope_to_string(rope: &Rope) -> (r: String)
    ensures
        r@ == rope_text(*rope),
{
    rope.to_string()
}

} // verus!
