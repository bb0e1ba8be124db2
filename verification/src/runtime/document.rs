//! A document kept up to date edit by edit: its text in a rope and its tokens
//! in a token store.

use ropey::Rope;
use vstd::prelude::*;
use vstd::string::*;
use vstd::utf8::*;

use crate::expr::edit::{bytes_of, lemma_encode_concat, Edit};
use crate::runtime::cursor::{tokenize, tokens_from, ByteSource};
use crate::runtime::lexing::{lemma_specs_whole, specs_from};
use crate::runtime::relex::{law_relex, relex_into, relexable, relexed_count};
use crate::runtime::rope::{
    rope_byte, rope_byte_to_char, rope_from_str, rope_insert, rope_len_bytes, rope_remove,
    rope_text, rope_to_string,
};
use crate::runtime::table::{Table, Token};
use crate::runtime::token_store::{law_placed_relative, TokenStore};

verus! {

/// The bytes of a rope.
pub struct RopeBytes<'a>(pub &'a Rope);

impl<'a> ByteSource for RopeBytes<'a> {
    open spec fn text(&self) -> Seq<u8> {
        encode_utf8(rope_text(*self.0))
    }

    fn byte_len(&self) -> (r: usize) {
        rope_len_bytes(self.0)
    }

    fn byte_at(&self, i: usize) -> (r: u8) {
        rope_byte(self.0, i)
    }
}

/// A text and its tokens.
pub struct IncrementalDocument<'a> {
    pub table: &'a Table,
    pub rope: Rope,
    pub store: TokenStore,
}

impl<'a> IncrementalDocument<'a> {
    /// The text in UTF-8.
    pub open spec fn bytes(&self) -> Seq<u8> {
        encode_utf8(rope_text(self.rope))
    }

    /// The tokens are those of the text.
    pub open spec fn wf(&self) -> bool {
        &&& self.table.wf()
        &&& self.table.one_byte_context()
        &&& self.store.wf()
        &&& self.bytes().len() < u32::MAX
        &&& self.store@ == specs_from(*self.table, self.bytes(), 0)
    }

    pub fn new(table: &'a Table, src: &str) -> (r: IncrementalDocument<'a>)
        requires
            table.wf(),
            table.one_byte_context(),
            src.spec_bytes().len() < u32::MAX,
        ensures
            r.wf(),
            r.table == table,
            rope_text(r.rope) == src@,
    {
        proof {
            lemma_specs_whole(*table, src.spec_bytes());
        }
        let tokens = tokenize(table, src);
        let store = TokenStore::from_tokens(tokens.as_slice());
        IncrementalDocument { table, rope: rope_from_str(src), store }
    }

    /// Replace bytes `[start, end)`. Returns how many tokens were lexed.
    pub fn edit(&mut self, start: usize, end: usize, replacement: &str) -> (r: usize)
        requires
            old(self).wf(),
            start <= end <= old(self).bytes().len(),
            is_char_boundary(old(self).bytes(), start as int),
            is_char_boundary(old(self).bytes(), end as int),
            old(self).bytes().len() + replacement.spec_bytes().len() - (end - start) < u32::MAX,
        ensures
            final(self).wf(),
            final(self).table == old(self).table,
            final(self).bytes() == old(self).bytes().take(start as int) + replacement.spec_bytes()
                + old(self).bytes().skip(end as int),
            r == relexed_count(
                *old(self).table,
                old(self).store@,
                final(self).bytes(),
                start as int,
                end as int,
                replacement.spec_bytes().len() - (end - start),
            ),
    {
        let ghost before = self.bytes();
        let ghost chars = rope_text(self.rope);
        let old_len: usize = rope_len_bytes(&self.rope);
        let c_start: usize = rope_byte_to_char(&self.rope, start);
        let c_end: usize = rope_byte_to_char(&self.rope, end);
        proof {
            lemma_char_order(chars, c_start as int, c_end as int);
        }
        rope_remove(&mut self.rope, c_start, c_end);
        rope_insert(&mut self.rope, c_start, replacement);
        let edit = Edit { start: start as u32, end: end as u32, replacement: replacement.to_owned() };
        proof {
            let a = chars.take(c_start as int);
            let z = chars.skip(c_end as int);
            assert((a + z).take(c_start as int) =~= a);
            assert((a + z).skip(c_start as int) =~= z);
            assert(rope_text(self.rope) == a + replacement@ + z);
            lemma_encode_concat(a + replacement@, z);
            lemma_encode_concat(a, replacement@);
            lemma_encode_split(chars, c_start as int);
            lemma_encode_split(chars, c_end as int);
            assert(self.bytes() =~= edit.applied(before));
            assert(self.bytes() =~= before.take(start as int) + replacement.spec_bytes()
                + before.skip(end as int));
            assert(relexable(*self.table, before, self.store@, self.bytes(), edit));
            law_relex(*self.table, before, self.store@, self.bytes(), edit);
        }
        let view = RopeBytes(&self.rope);
        assert(view.text() == self.bytes());
        assert(relexable(*self.table, before, self.store@, view.text(), edit));
        relex_into(self.table, &mut self.store, old_len, &view, &edit)
    }

    /// The tokens with their positions.
    pub fn tokens(&self) -> (r: Vec<Token>)
        requires
            self.wf(),
        ensures
            r@ == tokens_from(*self.table, self.bytes(), 0),
    {
        proof {
            lemma_specs_whole(*self.table, self.bytes());
            law_placed_relative(tokens_from(*self.table, self.bytes(), 0));
        }
        self.store.to_vec()
    }

    /// The text.
    pub fn text(&self) -> (r: String)
        ensures
            r@ == rope_text(self.rope),
            bytes_of(r) == self.bytes(),
    {
        rope_to_string(&self.rope)
    }

    pub fn byte_len(&self) -> (r: usize)
        ensures
            r == self.bytes().len(),
    {
        rope_len_bytes(&self.rope)
    }
}

/// The bytes before and after a character.
proof fn lemma_encode_split(chars: Seq<char>, i: int)
    requires
        0 <= i <= chars.len(),
    ensures
        encode_utf8(chars) == encode_utf8(chars.take(i)) + encode_utf8(chars.skip(i)),
        encode_utf8(chars).take(encode_utf8(chars.take(i)).len() as int) == encode_utf8(
            chars.take(i),
        ),
        encode_utf8(chars).skip(encode_utf8(chars.take(i)).len() as int) == encode_utf8(
            chars.skip(i),
        ),
{
    let a = encode_utf8(chars.take(i));
    let b = encode_utf8(chars.skip(i));
    assert(chars =~= chars.take(i) + chars.skip(i));
    lemma_encode_concat(chars.take(i), chars.skip(i));
    assert((a + b).take(a.len() as int) =~= a);
    assert((a + b).skip(a.len() as int) =~= b);
}

/// Characters come in the order of their bytes.
proof fn lemma_char_order(chars: Seq<char>, i: int, j: int)
    requires
        0 <= i <= chars.len(),
        0 <= j <= chars.len(),
        encode_utf8(chars.take(i)).len() <= encode_utf8(chars.take(j)).len(),
    ensures
        i <= j,
{
    if j < i {
        let m = chars.subrange(j, i);
        assert(chars.take(i) =~= chars.take(j) + m);
        lemma_encode_concat(chars.take(j), m);
        assert(m.len() > 0);
        assert(encode_utf8(m).len() > 0) by {
            lemma_encode_concat(seq![m[0]], m.skip(1));
            assert(m =~= seq![m[0]] + m.skip(1));
            lemma_encode_one(m[0]);
        }
    }
}

proof fn lemma_encode_one(c: char)
    ensures
        encode_utf8(seq![c]).len() > 0,
{
    reveal_with_fuel(encode_utf8, 2);
}

} // verus!
