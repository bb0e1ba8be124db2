//! Parsing from scratch.

use std::sync::Arc;
use vstd::prelude::*;
use vstd::string::*;

use crate::runtime::ast::{form, laid, Form, Node};
use crate::runtime::cursor::next_token;
use crate::runtime::grammar::{parsed, tree_stands, ParseError};
use crate::runtime::pratt_core::Parser;
use crate::runtime::table::{Table, TokenKind, MIN_PREC};

verus! {

/// `n` says what `b` parses to, and stands in it.
pub open spec fn is_parse(t: Table, b: Seq<u8>, n: Arc<Node>) -> bool {
    &&& parsed(t, b) == Ok::<Form, ParseError>(form(t, n))
    &&& tree_stands(t, b, next_token(t, b, 0).start as int, n)
}

/// What parsing `b` returns: a tree of its form that stands in the text, or its
/// error.
pub open spec fn parse_ok(t: Table, b: Seq<u8>, r: Result<Arc<Node>, ParseError>) -> bool {
    match r {
        Ok(n) => is_parse(t, b, n),
        Err(x) => parsed(t, b) == Err::<Form, ParseError>(x),
    }
}

/// Parse the whole text, from scratch or with reuse.
pub(crate) fn finish<'a>(p: &mut Parser<'a>) -> (r: Result<Arc<Node>, ParseError>)
    requires
        old(p).inv(),
        old(p).at() == 0,
    ensures
        final(p).same(old(p)),
        parse_ok(old(p).table(), old(p).bytes(), r),
        r matches Ok(n) ==> old(p).fresh() ==> laid(old(p).table(), *n, MIN_PREC, true),
        r matches Ok(n) ==> old(p).world().some_reusable(0, MIN_PREC) ==> old(p).world().taken(
            0,
            MIN_PREC,
            n,
        ),
        r is Ok ==> final(p).tally() == old(p).world().counted(0, MIN_PREC, old(p).tally()),
{
    let node = match p.parse_expr(MIN_PREC) {
        Ok(n) => n,
        Err(x) => {
            return Err(x);
        },
    };
    let last = p.peek();
    if last.kind != TokenKind::Eof {
        return Err(ParseError::TrailingTokens { at: last.start });
    }
    Ok(node)
}

/// Parse `src`. A chain is split in halves, unless the right operand of its
/// operator takes all that follows.
pub fn parse(t: &Table, src: &str) -> (r: Result<Arc<Node>, ParseError>)
    requires
        t.wf(),
        src.spec_bytes().len() <= u32::MAX,
    ensures
        parse_ok(*t, src.spec_bytes(), r),
        r matches Ok(n) ==> laid(*t, *n, MIN_PREC, true),
{
    let mut p = Parser::new(t, src, None);
    finish(&mut p)
}

} // verus!
