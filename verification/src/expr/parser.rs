//! Fresh Pratt parser.

use std::sync::Arc;
use vstd::prelude::*;
use vstd::string::*;

use crate::expr::ast::{IdSource, Node};
use crate::expr::grammar::parse_stream;
use crate::expr::incremental::ReparseStats;
use crate::expr::lexer::{lex, tokenize, TokenKind};
use crate::expr::naming::minted;
use crate::expr::op::MIN_PREC;
use crate::expr::placement::lemma_parse;
use crate::expr::pratt_core::{lemma_lex_toks, Parser};
use crate::expr::shape::{canon, fits, levelled, norm};

verus! {

/// Why a source does not parse.
#[derive(Debug, Clone, Copy, PartialEq, Eq, Structural)]
pub enum ParseError {
    UnexpectedToken { kind: TokenKind, at: u32 },
    UnexpectedEof,
    MissingRParen { at: u32 },
    MissingRBracket { at: u32 },
    MissingColon { at: u32 },
    MissingMemberName { at: u32 },
    TrailingTokens { at: u32 },
}

/// `tree` is a parse of `src`, up to how chains are grouped.
pub open spec fn parsed(tree: Node, src: Seq<u8>) -> bool {
    &&& parse_stream(lex(src)) == Ok::<crate::expr::grammar::Form, ParseError>(norm(tree@))
    &&& fits(lex(src), 0, tree@)
    &&& tree.weighted()
}

/// Parse `src`. The nodes have no identity.
pub fn parse(src: &str) -> (r: Result<Arc<Node>, ParseError>)
    requires
        src.spec_bytes().len() <= u32::MAX,
    ensures
        match r {
            Ok(tree) => {
                &&& parsed(*tree, src.spec_bytes())
                &&& canon(tree@, 0, true)
                &&& levelled(tree@)
                &&& minted(None, &*tree, 0, 0)
            },
            Err(e) => parse_stream(lex(src.spec_bytes())) == Err::<
                crate::expr::grammar::Form,
                ParseError,
            >(e),
        },
{
    let mut ids = IdSource::none();
    parse_with_ids(src, &mut ids)
}

/// Parse `src`, minting node identities from `ids`: every node has one of its
/// own, of those that `ids` gave out here.
pub fn parse_with_ids(src: &str, ids: &mut IdSource) -> (r: Result<Arc<Node>, ParseError>)
    requires
        src.spec_bytes().len() <= u32::MAX,
    ensures
        old(ids).next <= final(ids).next,
        old(ids).next == 0 ==> final(ids).next == 0,
        match r {
            Ok(tree) => {
                &&& parsed(*tree, src.spec_bytes())
                &&& canon(tree@, 0, true)
                &&& levelled(tree@)
                &&& minted(None, &*tree, old(ids).next, final(ids).next)
            },
            Err(e) => parse_stream(lex(src.spec_bytes())) == Err::<
                crate::expr::grammar::Form,
                ParseError,
            >(e),
        },
{
    let tokens = tokenize(src);
    proof {
        lemma_lex_toks(src.spec_bytes());
        lemma_parse(lex(src.spec_bytes()), 0, 0);
        assert(tokens@.len() == lex(src.spec_bytes()).len());
    }
    let mut p = Parser {
        src,
        tokens: tokens.as_slice(),
        pos: 0,
        ids: *ids,
        reuse: None,
        tracking: false,
        stack: Vec::new(),
        stats: ReparseStats::default(),
    };
    let r = p.parse_expr(MIN_PREC);
    *ids = p.ids;
    let node = match r {
        Ok(n) => n,
        Err(e) => {
            return Err(e);
        },
    };
    let next = p.tokens[p.pos];
    if next.kind != TokenKind::Eof {
        return Err(ParseError::TrailingTokens { at: next.start });
    }
    Ok(node)
}

} // verus!
