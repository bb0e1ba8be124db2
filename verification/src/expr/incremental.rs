//! Incremental reparse with precedence-bounded reuse.
//!
//! A cached subtree is reused for the expression at a token when
//!   1. `min_prec` lies in its acceptance band: `stop_lbp <= min_prec < m_spine`;
//!   2. the edit leaves its bytes alone;
//!   3. the bytes just before and after it are unchanged;
//!   4. the token that follows it binds as tightly as `stop_lbp`.
//! The reparse then gives what a parse from scratch gives, up to how chains of
//! one associativity-conflict operator are grouped.

use std::sync::Arc;
use vstd::prelude::*;
use vstd::string::*;
use vstd::utf8::*;

use crate::expr::ast::{occurs, IdSource, Node, Shape};
use crate::expr::cache::ReuseCache;
use crate::expr::edit::{bytes_of, law_applied_len, Edit};
use crate::expr::grammar::{parse_stream, Form};
use crate::expr::lexer::{lex, models, tokenize, Token, TokenKind};
use crate::expr::naming::{
    from_cache, law_identities_name, lemma_within_named, minted, with_names, within,
};
use crate::expr::op::MIN_PREC;
use crate::expr::parser::{parsed, ParseError};
use crate::expr::placement::lemma_parse;
use crate::expr::pratt_core::{lemma_lex_toks, Parser};
use crate::expr::recovery::{
    global_result, law_local_cost_is_total, law_local_repairs_iff_broken, local_optimal_repair,
    local_result, unit_costs, LocalRepairResult, RepairResult, MAX_REPAIR_COST,
};
use crate::expr::repair::{sum_of, Repair};
use crate::expr::reuse::Reuse;
use crate::expr::semantics_ctx::named;
use crate::expr::shape::{
    alike, canon, grouped, lemma_canon_grouped, lemma_grouped_alike, levelled, norm,
};
use crate::expr::subtrees::subtrees;
use crate::expr::walk::World;

verus! {

/// Counters of one reparse.
#[derive(Debug, Clone, Copy)]
pub struct ReparseStats {
    pub nodes_reused: u32,
    pub nodes_parsed: u32,
    pub reuse_attempts: u32,
    pub reuse_rejected_precedence: u32,
    pub reuse_rejected_changed: u32,
}

impl Default for ReparseStats {
    fn default() -> (r: ReparseStats)
        ensures
            r == (ReparseStats {
                nodes_reused: 0,
                nodes_parsed: 0,
                reuse_attempts: 0,
                reuse_rejected_precedence: 0,
                reuse_rejected_changed: 0,
            }),
    {
        ReparseStats {
            nodes_reused: 0,
            nodes_parsed: 0,
            reuse_attempts: 0,
            reuse_rejected_precedence: 0,
            reuse_rejected_changed: 0,
        }
    }
}

/// What a reparse of `old_src` after `edit` returns: the new source, and for
/// it what parsing from scratch returns, trees up to the grouping of chains.
pub open spec fn reparse_ok(
    old_src: Seq<u8>,
    edit: &Edit,
    r: Result<(Arc<Node>, String, ReparseStats), ParseError>,
) -> bool {
    let new = edit.applied(old_src);
    match r {
        Ok((tree, new_src, stats)) => {
            &&& bytes_of(new_src) == new
            &&& new_src@ == decode_utf8(new)
            &&& parsed(*tree, new)
        },
        Err(e) => parse_stream(lex(new)) == Err::<Form, ParseError>(e),
    }
}

/// Nothing counted.
pub open spec fn no_stats() -> ReparseStats {
    ReparseStats {
        nodes_reused: 0,
        nodes_parsed: 0,
        reuse_attempts: 0,
        reuse_rejected_precedence: 0,
        reuse_rejected_changed: 0,
    }
}

/// How a reparse that reuses what it can from `cache` comes to `tree`: it
/// counts what the walk over the new tokens tries, reuses and parses; what the
/// walk keeps stands in `tree` as it is; a cached subtree that may stand for the
/// whole source does; chains stay balanced; and the nodes that are not reused
/// have identities from `lo` up to `hi`.
pub open spec fn reparse_walk<'a>(
    cache: &'a ReuseCache,
    old_src: &'a str,
    edit: &'a Edit,
    lookahead: Option<usize>,
    tree: Arc<Node>,
    stats: ReparseStats,
    lo: u64,
    hi: u64,
) -> bool {
    &&& exists|w: World<'a>|
        {
            &&& #[trigger] w.goes_by(cache, old_src, edit, lookahead)
            &&& stats == w.counted(0, 0, no_stats())
            &&& w.kept(0, 0).subset_of(subtrees(&*tree))
            &&& w.some_reusable(0, 0) ==> exists|start: u32, i: int| #[trigger]
                w.taken(0, 0, tree, start, i)
        }
    &&& cache.strict() ==> grouped(tree@)
    &&& cache.level() ==> levelled(tree@)
    &&& minted(Some(cache), &*tree, lo, hi)
}

/// Build the cache of `old_tree` and reparse after `edit`. Nodes that are not
/// reused have no identity.
pub fn incremental_parse(old_tree: &Arc<Node>, old_src: &str, edit: &Edit) -> (r: Result<
    (Arc<Node>, String, ReparseStats),
    ParseError,
>)
    requires
        parsed(**old_tree, old_src.spec_bytes()),
        edit.in_range(old_src.spec_bytes()),
        edit.small(old_src.spec_bytes()),
    ensures
        reparse_ok(old_src.spec_bytes(), edit, r),
        r matches Ok((tree, _, stats)) ==> {
            &&& grouped(old_tree@) ==> grouped(tree@)
            &&& levelled(old_tree@) ==> levelled(tree@)
            &&& exists|cache: ReuseCache|
                {
                    &&& #[trigger] cache.holds(*old_tree, old_src.spec_bytes())
                    &&& cache.ok(old_src.spec_bytes())
                    &&& cache.spans is None
                    &&& reparse_walk(&cache, old_src, edit, None, tree, stats, 0, 0)
                }
        },
{
    let cache = ReuseCache::build(old_tree, old_src);
    incremental_parse_with_cache(&cache, old_src, edit)
}

/// Reparse after `edit`, reusing the subtrees in `cache`, the cache of a parse
/// of `old_src`. Nodes that are not reused have no identity.
pub fn incremental_parse_with_cache(cache: &ReuseCache, old_src: &str, edit: &Edit) -> (r: Result<
    (Arc<Node>, String, ReparseStats),
    ParseError,
>)
    requires
        cache.ok(old_src.spec_bytes()),
        edit.in_range(old_src.spec_bytes()),
        edit.small(old_src.spec_bytes()),
    ensures
        reparse_ok(old_src.spec_bytes(), edit, r),
        r matches Ok((tree, _, stats)) ==> reparse_walk(
            cache,
            old_src,
            edit,
            None,
            tree,
            stats,
            0,
            0,
        ),
{
    let mut ids = IdSource::none();
    incremental_parse_with_ids(cache, old_src, edit, &mut ids)
}

/// Reparse after `edit`, reusing the subtrees in `cache`, the cache of a parse
/// of `old_src`; nodes that are not reused have identities from `ids`.
pub fn incremental_parse_with_ids(
    cache: &ReuseCache,
    old_src: &str,
    edit: &Edit,
    ids: &mut IdSource,
) -> (r: Result<(Arc<Node>, String, ReparseStats), ParseError>)
    requires
        cache.ok(old_src.spec_bytes()),
        edit.in_range(old_src.spec_bytes()),
        edit.small(old_src.spec_bytes()),
    ensures
        reparse_ok(old_src.spec_bytes(), edit, r),
        old(ids).next <= final(ids).next,
        old(ids).next == 0 ==> final(ids).next == 0,
        r matches Ok((tree, _, stats)) ==> reparse_walk(
            cache,
            old_src,
            edit,
            None,
            tree,
            stats,
            old(ids).next,
            final(ids).next,
        ),
{
    let none: Vec<Token> = Vec::new();
    reparse(cache, old_src, edit, None, none.as_slice(), ids)
}

/// A reparse that never fails.
pub struct IncrementalRecovery {
    pub tree: Arc<Node>,
    pub new_src: String,
    /// Empty if the edited source parses.
    pub repairs: Vec<Repair>,
    /// The region the repairs are confined to; `None` if the edited source
    /// parses or its repair takes all of it into account.
    pub region: Option<(usize, usize)>,
    pub stats: ReparseStats,
}

/// Reparse after `edit`; if the edited source does not parse, repair it
/// locally.
pub fn incremental_parse_with_cache_recovering(
    cache: &ReuseCache,
    old_src: &str,
    edit: &Edit,
) -> (r: IncrementalRecovery)
    requires
        cache.ok(old_src.spec_bytes()),
        edit.in_range(old_src.spec_bytes()),
        edit.small(old_src.spec_bytes()),
        2 * edit.applied(old_src.spec_bytes()).len() + 14 <= u32::MAX,
    ensures
        bytes_of(r.new_src) == edit.applied(old_src.spec_bytes()),
        parse_stream(lex(edit.applied(old_src.spec_bytes()))) is Ok ==> {
            &&& parsed(*r.tree, edit.applied(old_src.spec_bytes()))
            &&& r.repairs@.len() == 0
            &&& r.region is None
            &&& reparse_walk(cache, old_src, edit, None, r.tree, r.stats, 0, 0)
        },
        parse_stream(lex(edit.applied(old_src.spec_bytes()))) is Err ==> r.stats == no_stats(),
        parse_stream(lex(edit.applied(old_src.spec_bytes()))) is Err ==> exists|
            ts: Seq<Token>,
            x: LocalRepairResult,
        |
            {
                &&& models(ts, edit.applied(old_src.spec_bytes())) == lex(
                    edit.applied(old_src.spec_bytes()),
                )
                &&& #[trigger] local_result(
                    edit.applied(old_src.spec_bytes()),
                    ts,
                    MAX_REPAIR_COST as int,
                    x,
                )
                &&& r.tree == x.result.tree
                &&& r.repairs == x.result.repairs
                &&& r.region == x.region
            },
        r.repairs@.len() == 0 <==> parse_stream(lex(edit.applied(old_src.spec_bytes()))) is Ok,
        parse_stream(lex(edit.applied(old_src.spec_bytes()))) is Err ==> forall|g: RepairResult|
            #[trigger] global_result(
                edit.applied(old_src.spec_bytes()),
                MAX_REPAIR_COST as int,
                g,
            ) ==> sum_of(unit_costs(), r.repairs@) == g.cost,
{
    match incremental_parse_with_cache(cache, old_src, edit) {
        Ok((tree, new_src, stats)) => IncrementalRecovery {
            tree,
            new_src,
            repairs: Vec::new(),
            region: None,
            stats,
        },
        Err(_) => {
            let new_src: String = edit.apply(old_src);
            let local = local_optimal_repair(new_src.as_str());
            proof {
                let new = edit.applied(old_src.spec_bytes());
                let ts = choose|ts: Seq<Token>|
                    models(ts, new) == lex(new) && #[trigger] local_result(
                        new,
                        ts,
                        MAX_REPAIR_COST as int,
                        local,
                    );
                law_local_repairs_iff_broken(new, ts, MAX_REPAIR_COST as int, local);
                law_local_cost_is_total(new, ts, MAX_REPAIR_COST as int, local);
            }
            IncrementalRecovery {
                tree: local.result.tree,
                new_src,
                repairs: local.result.repairs,
                region: local.region,
                stats: ReparseStats::default(),
            }
        },
    }
}

/// Reparse under either reuse predicate.
pub(crate) fn reparse(
    cache: &ReuseCache,
    old_src: &str,
    edit: &Edit,
    lookahead: Option<usize>,
    old_tokens: &[Token],
    ids: &mut IdSource,
) -> (r: Result<(Arc<Node>, String, ReparseStats), ParseError>)
    requires
        cache.ok(old_src.spec_bytes()),
        edit.in_range(old_src.spec_bytes()),
        edit.small(old_src.spec_bytes()),
        lookahead is Some ==> models(old_tokens@, old_src.spec_bytes()) == lex(
            old_src.spec_bytes(),
        ),
    ensures
        reparse_ok(old_src.spec_bytes(), edit, r),
        old(ids).next <= final(ids).next,
        old(ids).next == 0 ==> final(ids).next == 0,
        r matches Ok((tree, _, stats)) ==> reparse_walk(
            cache,
            old_src,
            edit,
            lookahead,
            tree,
            stats,
            old(ids).next,
            final(ids).next,
        ),
{
    let ghost old = old_src.spec_bytes();
    let new_src: String = edit.apply(old_src);
    proof {
        law_applied_len(edit, old);
        lemma_lex_toks(bytes_of(new_src));
        lemma_parse(lex(bytes_of(new_src)), 0, 0);
    }
    let new_tokens = tokenize(new_src.as_str());
    assert(new_tokens@.len() == lex(bytes_of(new_src)).len());
    let mut p = Parser {
        src: new_src.as_str(),
        tokens: new_tokens.as_slice(),
        pos: 0,
        ids: *ids,
        reuse: Some(Reuse { old_src, edit, cache, lookahead, old_tokens }),
        tracking: false,
        stack: Vec::new(),
        stats: ReparseStats::default(),
    };
    let ghost w = p.world();
    let r = p.parse_expr(MIN_PREC);
    *ids = p.ids;
    let node = match r {
        Ok(n) => n,
        Err(e) => {
            return Err(e);
        },
    };
    let next = p.peek();
    if next.kind != TokenKind::Eof {
        return Err(ParseError::TrailingTokens { at: next.start });
    }
    let stats = p.stats;
    assert(w.goes_by(cache, old_src, edit, lookahead));
    Ok((node, new_src, stats))
}

/// A reparse that splices nothing, of a tree grouped as a parse groups it, has
/// the shape of a parse of the edited source from scratch, apart from the
/// lowest `min_prec` nodes were parsed at.
pub proof fn law_reparse_same_shape(src: Seq<u8>, tree: Arc<Node>, fresh: Arc<Node>)
    requires
        parsed(*tree, src),
        grouped(tree@),
        parsed(*fresh, src),
        canon(fresh@, 0, true),
    ensures
        alike(tree@, fresh@),
{
    lemma_canon_grouped(fresh@, 0, true);
    lemma_grouped_alike(lex(src), 0, tree@, fresh@);
}

/// Identities are given out once: where `names` says what the identities of
/// the old tree name, all of them given out before, it also says, with what
/// the new identities name, what those of the new tree name; names from before
/// stay.
pub proof fn law_reparse_identities<'a>(
    old_tree: Arc<Node>,
    old_src: &'a str,
    cache: &'a ReuseCache,
    tree: Arc<Node>,
    lo: u64,
    hi: u64,
    names: spec_fn(u64) -> Shape,
)
    requires
        cache.holds(old_tree, old_src.spec_bytes()),
        named(*old_tree, names),
        forall|id: u64| #[trigger] occurs(*old_tree, id) && id != 0 ==> id < lo,
        minted(Some(cache), &*tree, lo, hi),
    ensures
        named(*tree, with_names(Some(cache), &*tree, names)),
        forall|id: u64|
            id < lo || id >= hi ==> #[trigger] with_names(Some(cache), &*tree, names)(id) == names(id),
{
    assert forall|n: Node| #[trigger] from_cache(Some(cache), &n) implies named(n, names) && (forall|
        id: u64,
    | #[trigger] occurs(n, id) && id != 0 ==> id < lo) by {
        reveal(from_cache);
        let (key, j) = choose|key: u64, j: int|
            0 <= j < cache.by_byte.cands(key).len() && within(
                &*(#[trigger] cache.by_byte.cands(key)[j]),
                &n,
            );
        let c = cache.by_byte.cands(key)[j];
        cache.lemma_held(old_tree, old_src.spec_bytes(), key, j);
        lemma_within_named(&*old_tree, &*c, names);
        lemma_within_named(&*c, &n, names);
    }
    law_identities_name(Some(cache), &*tree, lo, hi, names);
}

/// Reparsing is sound: it succeeds exactly where a parse of the edited source
/// from scratch does, with the same expression, and fails with the same error.
pub proof fn law_reparse_sound(
    old_src: Seq<u8>,
    edit: &Edit,
    r: Result<(Arc<Node>, String, ReparseStats), ParseError>,
    fresh: Result<Arc<Node>, ParseError>,
)
    requires
        reparse_ok(old_src, edit, r),
        fresh matches Ok(t) ==> parsed(*t, edit.applied(old_src)),
        fresh matches Err(e) ==> parse_stream(lex(edit.applied(old_src))) == Err::<Form, ParseError>(
            e,
        ),
    ensures
        match (r, fresh) {
            (Ok((tree, src, stats)), Ok(t)) => norm(tree@) == norm(t@),
            (Err(e), Err(f)) => e == f,
            _ => false,
        },
{
}

} // verus!
