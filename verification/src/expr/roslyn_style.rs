//! A conservative comparator: the acceptance band ends at `m_floor` instead of
//! `m_spine`, and the next token kinds must be those of the old source. Where
//! no token is looked at, the next one must bind as before.

use std::sync::Arc;
use vstd::prelude::*;
use vstd::string::*;

use crate::expr::ast::{IdSource, Node, Shape};
use crate::expr::cache::ReuseCache;
use crate::expr::edit::Edit;
use crate::expr::incremental::{reparse, reparse_ok, reparse_walk, ReparseStats};
use crate::expr::lexer::{tokenize, Tok};
use crate::expr::parser::{parsed, ParseError};
use crate::expr::shape::{fits, grouped, levelled};

verus! {

/// Build the cache of `old_tree` and reparse after `edit` with `lookahead`
/// tokens of lookahead.
pub fn roslyn_style_parse(old_tree: &Arc<Node>, old_src: &str, edit: &Edit, lookahead: usize) -> (r:
    Result<(Arc<Node>, String, ReparseStats), ParseError>)
    requires
        parsed(**old_tree, old_src.spec_bytes()),
        edit.in_range(old_src.spec_bytes()),
        edit.small(old_src.spec_bytes()),
    ensures
        reparse_ok(old_src.spec_bytes(), edit, r),
        r matches Ok((tree, _, stats)) ==> {
            &&& grouped(old_tree@) ==> grouped(tree@)
            &&& levelled(old_tree@) ==> levelled(tree@)
            &&& exists|cache: ReuseCache|
                {
                    &&& #[trigger] cache.holds(*old_tree, old_src.spec_bytes())
                    &&& cache.ok(old_src.spec_bytes())
                    &&& cache.spans is None
                    &&& reparse_walk(&cache, old_src, edit, Some(lookahead), tree, stats, 0, 0)
                }
        },
{
    let cache = ReuseCache::build(old_tree, old_src);
    roslyn_style_with_cache(&cache, old_src, edit, lookahead)
}

/// Reparse after `edit` with `lookahead` tokens of lookahead, reusing the
/// subtrees in `cache`.
pub fn roslyn_style_with_cache(
    cache: &ReuseCache,
    old_src: &str,
    edit: &Edit,
    lookahead: usize,
) -> (r: Result<(Arc<Node>, String, ReparseStats), ParseError>)
    requires
        cache.ok(old_src.spec_bytes()),
        edit.in_range(old_src.spec_bytes()),
        edit.small(old_src.spec_bytes()),
    ensures
        reparse_ok(old_src.spec_bytes(), edit, r),
        r matches Ok((tree, _, stats)) ==> reparse_walk(
            cache,
            old_src,
            edit,
            Some(lookahead),
            tree,
            stats,
            0,
            0,
        ),
{
    let old_tokens = tokenize(old_src);
    let mut ids = IdSource::none();
    reparse(cache, old_src, edit, Some(lookahead), old_tokens.as_slice(), &mut ids)
}

/// The conservative band lies within the precedence-bounded one.
pub proof fn law_floor_band_within(a: Seq<Tok>, p: int, t: Shape, m: int)
    requires
        fits(a, p, t),
        t.stop_lbp <= m <= t.m_floor,
    ensures
        t.stop_lbp <= m < t.m_spine,
{
}

} // verus!
