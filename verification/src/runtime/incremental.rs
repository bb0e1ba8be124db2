//! Reparsing after an edit.

use std::sync::Arc;
use vstd::prelude::*;
use vstd::string::*;

use crate::expr::edit::{bytes_of, Edit};
use crate::runtime::ast::Node;
use crate::runtime::cache::ReuseCache;
use crate::runtime::grammar::ParseError;
use crate::runtime::parser::{finish, is_parse, parse_ok};
use crate::runtime::pratt_core::{Parser, ReparseStats, Reuse};
use crate::runtime::table::{Table, MIN_PREC};
use crate::runtime::walk::{at_first, cache_world, tree_world, World};

verus! {

/// What a reparse returns: the edited source, and what parsing it from scratch
/// gives.
pub open spec fn reparse_ok(
    t: Table,
    old_src: Seq<u8>,
    edit: &Edit,
    r: Result<(Arc<Node>, String, ReparseStats), ParseError>,
) -> bool {
    let new = edit.applied(old_src);
    match r {
        Ok((n, src, stats)) => bytes_of(src) == new && parse_ok(t, new, Ok(n)),
        Err(x) => parse_ok(t, new, Err(x)),
    }
}

/// How a reparse that goes by `w` comes to `n`: it counts what the walk over
/// the text tries, reuses, parses and lexes, and where a subtree may stand for
/// all of the text, the first such one is the result.
pub open spec fn reparse_walk(w: World, n: Arc<Node>, stats: ReparseStats) -> bool {
    &&& stats == w.counted(0, MIN_PREC, at_first())
    &&& w.some_reusable(0, MIN_PREC) ==> w.taken(0, MIN_PREC, n)
}

/// Build the cache of `old_tree` and reparse after `edit`.
pub fn incremental_parse(t: &Table, old_tree: &Arc<Node>, old_src: &str, edit: &Edit) -> (r: Result<
    (Arc<Node>, String, ReparseStats),
    ParseError,
>)
    requires
        t.wf(),
        t.one_byte_context(),
        is_parse(*t, old_src.spec_bytes(), *old_tree),
        edit.in_range(old_src.spec_bytes()),
        edit.small(old_src.spec_bytes()),
    ensures
        reparse_ok(*t, old_src.spec_bytes(), edit, r),
        r matches Ok((n, _, stats)) ==> reparse_walk(
            tree_world(*t, *old_tree, old_src.spec_bytes(), *edit),
            n,
            stats,
        ),
{
    let cache = ReuseCache::build(t, old_tree, old_src);
    proof {
        let old = old_src.spec_bytes();
        let v = cache_world(*t, cache, old, *edit);
        let w = tree_world(*t, *old_tree, old, *edit);
        assert(v.earlier->0.cands =~= w.earlier->0.cands);
    }
    incremental_parse_with_cache(t, &cache, old_src, edit)
}

/// Apply the edit to `old_src` and reparse, reusing what `cache` holds of it.
pub fn incremental_parse_with_cache(t: &Table, cache: &ReuseCache, old_src: &str, edit: &Edit) -> (r:
    Result<(Arc<Node>, String, ReparseStats), ParseError>)
    requires
        t.wf(),
        t.one_byte_context(),
        cache.ok(*t, old_src.spec_bytes()),
        edit.in_range(old_src.spec_bytes()),
        edit.small(old_src.spec_bytes()),
    ensures
        reparse_ok(*t, old_src.spec_bytes(), edit, r),
        r matches Ok((n, _, stats)) ==> reparse_walk(
            cache_world(*t, *cache, old_src.spec_bytes(), *edit),
            n,
            stats,
        ),
{
    let new_src: String = edit.apply(old_src);
    match incremental_reparse(t, cache, old_src, new_src.as_str(), edit) {
        Ok((n, stats)) => Ok((n, new_src, stats)),
        Err(x) => Err(x),
    }
}

/// Reparse `new_src`, the edited source, reusing what `cache` holds of
/// `old_src`.
pub fn incremental_reparse(
    t: &Table,
    cache: &ReuseCache,
    old_src: &str,
    new_src: &str,
    edit: &Edit,
) -> (r: Result<(Arc<Node>, ReparseStats), ParseError>)
    requires
        t.wf(),
        t.one_byte_context(),
        cache.ok(*t, old_src.spec_bytes()),
        edit.start <= edit.end <= old_src.spec_bytes().len(),
        edit.small(old_src.spec_bytes()),
        new_src.spec_bytes() == edit.applied(old_src.spec_bytes()),
    ensures
        match r {
            Ok((n, stats)) => parse_ok(*t, new_src.spec_bytes(), Ok(n)) && reparse_walk(
                cache_world(*t, *cache, old_src.spec_bytes(), *edit),
                n,
                stats,
            ),
            Err(x) => parse_ok(*t, new_src.spec_bytes(), Err(x)),
        },
{
    let reuse = Reuse { old_src, edit, cache };
    let mut p = Parser::new(t, new_src, Some(reuse));
    proof {
        let w = cache_world(*t, *cache, old_src.spec_bytes(), *edit);
        assert(p.world().earlier->0.cands =~= w.earlier->0.cands);
    }
    let n = match finish(&mut p) {
        Ok(n) => n,
        Err(x) => {
            return Err(x);
        },
    };
    p.stats.tokens_lexed = p.lexer.lexed();
    Ok((n, p.stats))
}

/// Reparsing gives what parsing from scratch gives, however often it is done:
/// two results on one text, whatever was reused, say the same.
pub proof fn law_incremental_matches_fresh(
    t: Table,
    b: Seq<u8>,
    fresh: Result<Arc<Node>, ParseError>,
    again: Result<Arc<Node>, ParseError>,
)
    requires
        parse_ok(t, b, fresh),
        parse_ok(t, b, again),
    ensures
        match (fresh, again) {
            (Ok(x), Ok(y)) => crate::runtime::ast::form(t, x) == crate::runtime::ast::form(t, y),
            (Err(x), Err(y)) => x == y,
            _ => false,
        },
{
}

} // verus!
