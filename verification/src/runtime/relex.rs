//! Relexing after an edit: tokens well before the edit are kept, lexing starts
//! a token before it, and stops where a token coincides with an old one past
//! the edit.

use vstd::prelude::*;
use vstd::string::*;

use crate::expr::edit::Edit;
use crate::runtime::cursor::{lemma_next_token, lex_token, next_token, tokens_from, ByteSource};
use crate::runtime::lexing::{
    lemma_head_specs, lemma_rest_specs, lemma_specs_relative, lemma_specs_skip, lemma_specs_whole,
    same_head, same_rest, specs_from,
};
use crate::runtime::table::{Table, Token, TokenKind};
use crate::runtime::token_store::{
    extent, first_past, fits, law_placed_relative, lemma_extent_concat, lemma_extent_one,
    lemma_extent_take, lemma_first_past, placed, placed_at, TokenSpec, TokenStore,
};

verus! {

/// How many tokens before byte `at` are kept: all but the last of those that
/// end there or before.
pub open spec fn kept_tokens(s: Seq<TokenSpec>, at: int) -> int {
    let past = first_past(s, at);
    let first = if past < s.len() {
        past
    } else {
        s.len() - 1
    };
    if first > 0 {
        first - 1
    } else {
        0
    }
}

/// The token `k` lexed after byte `at`, by gap and width.
pub open spec fn spec_after(k: Token, at: int) -> TokenSpec {
    TokenSpec { kind: k.kind, gap: (k.start - at) as u32, width: (k.end - k.start) as u32 }
}

/// The old token that the new token `k`, lexed after byte `at`, coincides
/// with: past the edit, and of the same kind, gap and width.
pub open spec fn coincides(
    s: Seq<TokenSpec>,
    k: Token,
    at: int,
    edit_end: int,
    delta: int,
) -> Option<int> {
    let b = k.start - delta;
    let i = first_past(s, b);
    if b >= edit_end && i < s.len() && placed_at(s, i).start == b && s[i] == spec_after(k, at) {
        Some(i)
    } else {
        None
    }
}

/// Relexing from byte `at`: how many tokens are lexed anew, and the old token
/// from which on the rest is kept.
pub open spec fn resynced(
    t: Table,
    b: Seq<u8>,
    at: int,
    s: Seq<TokenSpec>,
    edit_end: int,
    delta: int,
) -> (nat, int)
    decreases b.len() - at,
{
    let k = next_token(t, b, at);
    if k.kind is Eof || !(at < k.end <= b.len()) {
        (1, s.len() as int)
    } else {
        match coincides(s, k, at, edit_end, delta) {
            Some(i) => (0, i),
            None => {
                let r = resynced(t, b, k.end as int, s, edit_end, delta);
                (r.0 + 1, r.1)
            },
        }
    }
}

/// `s` is the tokens of `old`, and `new` is `old` edited.
pub open spec fn relexable(
    t: Table,
    old: Seq<u8>,
    s: Seq<TokenSpec>,
    new: Seq<u8>,
    edit: Edit,
) -> bool {
    &&& s == specs_from(t, old, 0)
    &&& edit.start <= edit.end <= old.len()
    &&& new == edit.applied(old)
    &&& old.len() < u32::MAX
    &&& new.len() < u32::MAX
}

/// Bring `store`, the tokens of `old_src`, up to date with the edit. Returns
/// how many tokens were lexed.
pub fn relex(t: &Table, store: &mut TokenStore, old_src: &str, new_src: &str, edit: &Edit) -> (r:
    usize)
    requires
        t.wf(),
        old(store).wf(),
        relexable(*t, old_src.spec_bytes(), old(store)@, new_src.spec_bytes(), *edit),
    ensures
        final(store).wf(),
        r == relexed_count(
            *t,
            old(store)@,
            new_src.spec_bytes(),
            edit.start as int,
            edit.end as int,
            edit.delta(),
        ),
        final(store)@ == relexed(*t, old(store)@, new_src.spec_bytes(), edit.start as int),
        t.one_byte_context() ==> placed(final(store)@) == tokens_from(*t, new_src.spec_bytes(), 0),
{
    proof {
        law_relex(*t, old_src.spec_bytes(), old(store)@, new_src.spec_bytes(), *edit);
    }
    let new_bytes = new_src.as_bytes();
    let old_len: usize = old_src.as_bytes().len();
    assert(relexable(*t, old_src.spec_bytes(), store@, new_bytes.text(), *edit));
    relex_into(t, store, old_len, new_bytes, edit)
}

/// The tokens after relexing: those kept, and the tokens of the new text from
/// where they end.
pub open spec fn relexed(t: Table, s: Seq<TokenSpec>, new: Seq<u8>, start: int) -> Seq<TokenSpec> {
    let n = kept_tokens(s, start);
    s.take(n) + specs_from(t, new, extent(s.take(n)) as int)
}

/// How many tokens relexing lexes.
pub open spec fn relexed_count(
    t: Table,
    s: Seq<TokenSpec>,
    new: Seq<u8>,
    start: int,
    end: int,
    delta: int,
) -> int {
    let n = kept_tokens(s, start);
    resynced(t, new, extent(s.take(n)) as int, s, end, delta).0 as int
}

/// The tokens kept end before the edit, by a token at least.
proof fn lemma_kept(t: Table, old: Seq<u8>, s: Seq<TokenSpec>, at: int)
    requires
        t.wf(),
        old.len() <= u32::MAX,
        s == specs_from(t, old, 0),
        0 <= at <= old.len(),
    ensures
        ({
            let n = kept_tokens(s, at);
            &&& 0 <= n < s.len()
            &&& extent(s.take(n)) <= at
            &&& n > 0 ==> extent(s.take(n)) < at
            &&& n == 0 ==> extent(s.take(n)) == 0
        }),
{
    lemma_first_past(s, at);
    lemma_specs_relative(t, old, 0);
    let past = first_past(s, at);
    let n = kept_tokens(s, at);
    assert(s.take(0) =~= Seq::empty());
    if n > 0 {
        let first = n + 1;
        lemma_specs_skip(t, old, 0, first);
        assert(extent(s.take(first)) <= at);
        assert(s.take(first) =~= s.take(n) + seq![s[n]]);
        lemma_extent_concat(s.take(n), seq![s[n]]);
        lemma_extent_one(s[n]);
    }
}

/// A new token that coincides with an old one: the rest is the same.
proof fn lemma_coincides(
    t: Table,
    old: Seq<u8>,
    s: Seq<TokenSpec>,
    new: Seq<u8>,
    edit: Edit,
    at: int,
)
    requires
        t.wf(),
        relexable(t, old, s, new, edit),
        0 <= at <= new.len(),
        !(next_token(t, new, at).kind is Eof),
        coincides(s, next_token(t, new, at), at, edit.end as int, edit.delta()) is Some,
    ensures
        specs_from(t, new, at) == s.skip(
            coincides(s, next_token(t, new, at), at, edit.end as int, edit.delta())->0,
        ),
        kept_tokens(s, edit.start as int) <= coincides(
            s,
            next_token(t, new, at),
            at,
            edit.end as int,
            edit.delta(),
        )->0 < s.len(),
{
    let k = next_token(t, new, at);
    let d = edit.delta();
    let i = coincides(s, k, at, edit.end as int, d)->0;
    lemma_next_token(t, new, at);
    lemma_first_past(s, k.start - d);
    lemma_specs_relative(t, old, 0);
    lemma_last(t, old, 0);
    assert(i + 1 < s.len());
    lemma_specs_skip(t, old, 0, i);
    lemma_specs_skip(t, old, 0, i + 1);
    assert(s.take(i + 1) =~= s.take(i) + seq![s[i]]);
    lemma_extent_concat(s.take(i), seq![s[i]]);
    lemma_extent_one(s[i]);
    let e = extent(s.take(i + 1)) as int;
    assert(e == k.start - d + s[i].width);
    lemma_kept(t, old, s, edit.start as int);
    let n = kept_tokens(s, edit.start as int);
    if i < n {
        assert(s.take(n).take(i + 1) =~= s.take(i + 1));
        lemma_extent_take(s.take(n), i + 1, n);
        assert(s.take(n).take(n) =~= s.take(n));
    }
    assert(same_rest(old, e, new, k.end as int)) by {
        assert(new.len() == old.len() + d);
        assert forall|x: int| 0 <= x < old.len() - e implies old[e + x] == #[trigger] new[k.end + x] by {
            assert(new[k.end + x] == old[k.end + x - d]);
        }
    }
    lemma_rest_specs(t, old, e, new, k.end as int);
    assert(s.skip(i) =~= seq![s[i]] + s.skip(i + 1));
}

/// The last token, and no other, is `Eof`.
proof fn lemma_last(t: Table, b: Seq<u8>, at: int)
    requires
        t.wf(),
        0 <= at <= b.len() <= u32::MAX,
    ensures
        specs_from(t, b, at).len() > 0,
        specs_from(t, b, at).last().kind is Eof,
    decreases b.len() - at,
{
    lemma_next_token(t, b, at);
    let k = next_token(t, b, at);
    if !(k.kind is Eof) {
        lemma_last(t, b, k.end as int);
        let r = specs_from(t, b, k.end as int);
        assert(specs_from(t, b, at).last() == r.last());
    }
}

/// Relexing gives the tokens of the edited text, where one byte past a token
/// decides that it ends there.
pub proof fn law_relex(t: Table, old: Seq<u8>, s: Seq<TokenSpec>, new: Seq<u8>, edit: Edit)
    requires
        t.wf(),
        relexable(t, old, s, new, edit),
    ensures
        t.one_byte_context() ==> relexed(t, s, new, edit.start as int) == specs_from(t, new, 0),
        t.one_byte_context() ==> placed(relexed(t, s, new, edit.start as int)) == tokens_from(t, new, 0),
{
    if t.one_byte_context() {
        lemma_kept(t, old, s, edit.start as int);
        let n = kept_tokens(s, edit.start as int);
        assert(same_head(old, new, edit.start as int));
        lemma_head_specs(t, old, new, edit.start as int, 0, n);
        lemma_specs_whole(t, new);
        law_placed_relative(tokens_from(t, new, 0));
    }
}

/// The result fits, and the rest of the old tokens is what it should be.
proof fn lemma_fits(t: Table, s: Seq<TokenSpec>, n: int, new: Seq<u8>, old: Seq<u8>)
    requires
        t.wf(),
        0 <= n < s.len(),
        s == specs_from(t, old, 0),
        old.len() < u32::MAX,
        new.len() < u32::MAX,
        extent(s.take(n)) <= new.len(),
    ensures
        fits(s.take(n) + specs_from(t, new, extent(s.take(n)) as int)),
    decreases n,
{
    let x = extent(s.take(n)) as int;
    lemma_specs_relative(t, new, x);
    lemma_extent_concat(s.take(n), specs_from(t, new, x));
    lemma_many(t, old, 0, n);
}

/// Each token but the last takes a byte at least.
proof fn lemma_many(t: Table, b: Seq<u8>, at: int, n: int)
    requires
        t.wf(),
        0 <= at <= b.len() <= u32::MAX,
        0 <= n < specs_from(t, b, at).len(),
    ensures
        n <= extent(specs_from(t, b, at).take(n)),
    decreases n,
{
    let s = specs_from(t, b, at);
    if n > 0 {
        lemma_many(t, b, at, n - 1);
        lemma_specs_skip(t, b, at, n);
        assert(s.take(n) =~= s.take(n - 1) + seq![s[n - 1]]);
        lemma_extent_concat(s.take(n - 1), seq![s[n - 1]]);
        lemma_extent_one(s[n - 1]);
    }
}

/// How many tokens before byte `start` are kept, and where they end.
fn keep_before(store: &TokenStore, start: u32) -> (r: (usize, usize))
    requires
        store.wf(),
        store@.len() > 0,
        extent(store@) <= u32::MAX,
    ensures
        r.0 == kept_tokens(store@, start as int),
        r.0 < store@.len(),
        r.1 == extent(store@.take(r.0 as int)),
{
    let ghost s = store@;
    let total: usize = store.len();
    let past: usize = store.index_at_byte(start as u64);
    let first: usize = if past < total {
        past
    } else {
        total - 1
    };
    let n: usize = if first > 0 {
        first - 1
    } else {
        0
    };
    proof {
        assert(s.take(0) =~= Seq::empty());
    }
    if n == 0 {
        return (0, 0);
    }
    proof {
        assert(s.take(n as int) =~= s.take(n - 1) + seq![s[n - 1]]);
        lemma_extent_concat(s.take(n - 1), seq![s[n - 1]]);
        lemma_extent_one(s[n - 1]);
        lemma_extent_take(s, n - 1, n as int);
    }
    match store.get(n - 1) {
        Some(k) => (n, k.end as usize),
        None => (n, 0),
    }
}

/// The old token that the new token `k`, lexed after byte `at`, coincides
/// with.
fn find_coincidence(
    store: &TokenStore,
    k: Token,
    spec: TokenSpec,
    edit_end: u32,
    delta: i64,
    Ghost(at): Ghost<int>,
) -> (r: Option<usize>)
    requires
        store.wf(),
        spec == spec_after(k, at),
        -0x1_0000_0000 <= delta <= 0x1_0000_0000,
    ensures
        match r {
            Some(i) => coincides(store@, k, at, edit_end as int, delta as int) == Some(i as int),
            None => coincides(store@, k, at, edit_end as int, delta as int) is None,
        },
{
    let at_old: i64 = k.start as i64 - delta;
    if at_old < edit_end as i64 {
        return None;
    }
    let i: usize = store.index_at_byte(at_old as u64);
    match (store.spec_at(i), store.get(i)) {
        (Some(old_spec), Some(old_token)) => if old_token.start as i64 == at_old && old_spec == spec {
            Some(i)
        } else {
            None
        },
        _ => None,
    }
}

/// Lex the new text from byte `from` until a token coincides with an old one.
/// Returns the tokens lexed and the old token from which on the rest is kept.
fn relex_window<B: ByteSource + ?Sized>(
    t: &Table,
    store: &TokenStore,
    new_src: &B,
    edit: &Edit,
    delta: i64,
    from: usize,
    Ghost(text): Ghost<Seq<u8>>,
) -> (r: (Vec<TokenSpec>, usize))
    requires
        t.wf(),
        store.wf(),
        relexable(*t, text, store@, new_src.text(), *edit),
        delta == edit.delta(),
        from <= new_src.text().len(),
    ensures
        kept_tokens(store@, edit.start as int) <= r.1 <= store@.len(),
        r.0@ + store@.skip(r.1 as int) == specs_from(*t, new_src.text(), from as int),
        r.0@.len() == resynced(
            *t,
            new_src.text(),
            from as int,
            store@,
            edit.end as int,
            edit.delta(),
        ).0,
{
    let ghost s = store@;
    let ghost b = new_src.text();
    let mut specs: Vec<TokenSpec> = Vec::new();
    let mut at: usize = from;
    proof {
        assert(specs@ + specs_from(*t, b, at as int) =~= specs_from(*t, b, from as int));
        lemma_kept(*t, text, s, edit.start as int);
    }
    loop
        invariant
            specs@ + specs_from(*t, b, at as int) == specs_from(*t, b, from as int),
            resynced(*t, b, from as int, s, edit.end as int, edit.delta()).0 == specs@.len() + resynced(
                *t,
                b,
                at as int,
                s,
                edit.end as int,
                edit.delta(),
            ).0,
            t.wf(),
            store.wf(),
            store@ == s,
            kept_tokens(s, edit.start as int) <= s.len(),
            b == new_src.text(),
            relexable(*t, text, s, b, *edit),
            delta == edit.delta(),
            at <= b.len(),
        decreases b.len() - at,
    {
        let k: Token = lex_token(t, new_src, at);
        proof {
            lemma_next_token(*t, b, at as int);
        }
        let spec = TokenSpec { kind: k.kind, gap: k.start - at as u32, width: k.end - k.start };
        if k.kind == TokenKind::Eof {
            let ghost before = specs@;
            specs.push(spec);
            assert(specs@ + s.skip(s.len() as int) =~= before + specs_from(*t, b, at as int));
            return (specs, store.len());
        }
        match find_coincidence(store, k, spec, edit.end, delta, Ghost(at as int)) {
            Some(i) => {
                proof {
                    lemma_coincides(*t, text, s, b, *edit, at as int);
                }
                return (specs, i);
            },
            None => {},
        }
        proof {
            assert(specs@.push(spec) + specs_from(*t, b, k.end as int) =~= specs@ + specs_from(
                *t,
                b,
                at as int,
            ));
        }
        specs.push(spec);
        at = k.end as usize;
    }
}

/// Bring `store`, the tokens of a text of `old_len` bytes, up to date with the
/// edit that made it `new_src`. Returns how many tokens were lexed.
pub fn relex_into<B: ByteSource + ?Sized>(
    t: &Table,
    store: &mut TokenStore,
    old_len: usize,
    new_src: &B,
    edit: &Edit,
) -> (r: usize)
    requires
        t.wf(),
        old(store).wf(),
        exists|text: Seq<u8>|
            text.len() == old_len && #[trigger] relexable(
                *t,
                text,
                old(store)@,
                new_src.text(),
                *edit,
            ),
    ensures
        final(store).wf(),
        r == relexed_count(
            *t,
            old(store)@,
            new_src.text(),
            edit.start as int,
            edit.end as int,
            edit.delta(),
        ),
        final(store)@ == relexed(*t, old(store)@, new_src.text(), edit.start as int),
{
    let ghost s = store@;
    let ghost text = choose|text: Seq<u8>|
        text.len() == old_len && #[trigger] relexable(*t, text, s, new_src.text(), *edit);
    let ghost b = new_src.text();
    let delta: i64 = new_src.byte_len() as i64 - old_len as i64;
    proof {
        lemma_kept(*t, text, s, edit.start as int);
        lemma_specs_relative(*t, text, 0);
        assert(delta == edit.delta());
        assert(b.len() >= edit.start);
    }
    let (n, from) = keep_before(store, edit.start);
    let (specs, j) = relex_window(t, store, new_src, edit, delta, from, Ghost(text));
    proof {
        lemma_fits(*t, s, n as int, b, text);
        assert(s.take(n as int) + specs@ + s.skip(j as int) =~= s.take(n as int) + (specs@ + s.skip(
            j as int,
        )));
    }
    store.splice(n, j, specs.as_slice());
    specs.len()
}

} // verus!
