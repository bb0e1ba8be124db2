//! The calculator grammar.

use incremental_pratt::certificate::incremental::{reuse_predicate, Edit};
use incremental_pratt::certificate::lexer::{lex, Token};
use incremental_pratt::certificate::parser::{batch_parse, NodeKind};


#[test]
fn lex_simple() {
    let toks = lex(b"1+2");
    assert_eq!(toks.len(), 4); // 1, +, 2, Eof
    assert_eq!(toks[0].0, Token::Int(1));
    assert_eq!(toks[1].0, Token::Plus);
    assert_eq!(toks[2].0, Token::Int(2));
    assert_eq!(toks[3].0, Token::Eof);
}

#[test]
fn lex_with_whitespace() {
    let toks = lex(b"1 + 2");
    assert_eq!(toks.len(), 4);
    assert_eq!(toks[0].1, 0);
    assert_eq!(toks[1].1, 2); // position of '+'
    assert_eq!(toks[2].1, 4); // position of '2'
}

#[test]
fn lex_parens() {
    let toks = lex(b"(1)");
    assert_eq!(toks.len(), 4);
    assert_eq!(toks[0].0, Token::LParen);
    assert_eq!(toks[1].0, Token::Int(1));
    assert_eq!(toks[2].0, Token::RParen);
}


#[test]
fn parse_literal() {
    let t = batch_parse(b"3").unwrap();
    assert_eq!(t.root_node().kind, NodeKind::Int(3));
    assert_eq!(t.root_node().start, 0);
    assert_eq!(t.root_node().end, 1);
}

#[test]
fn parse_addition() {
    let t = batch_parse(b"1+2").unwrap();
    match t.root_node().kind {
        NodeKind::Infix { op, .. } => assert_eq!(op, Token::Plus),
        _ => panic!("expected infix"),
    }
    assert_eq!(t.root_node().start, 0);
    assert_eq!(t.root_node().end, 3);
}

#[test]
fn parse_precedence() {
    // 1+2*3 should parse as 1+(2*3)
    let t = batch_parse(b"1+2*3").unwrap();
    match t.root_node().kind {
        NodeKind::Infix { op, right, .. } => {
            assert_eq!(op, Token::Plus);
            match t.node(right).kind {
                NodeKind::Infix { op, .. } => assert_eq!(op, Token::Times),
                _ => panic!("expected nested infix"),
            }
        }
        _ => panic!("expected infix at root"),
    }
}

#[test]
fn parse_parens() {
    let t = batch_parse(b"(1+2)*3").unwrap();
    match t.root_node().kind {
        NodeKind::Infix { op, left, .. } => {
            assert_eq!(op, Token::Times);
            match t.node(left).kind {
                NodeKind::Paren { .. } => {}
                _ => panic!("expected paren on left"),
            }
        }
        _ => panic!("expected infix at root"),
    }
}

#[test]
fn parse_factorial() {
    let t = batch_parse(b"3!").unwrap();
    match t.root_node().kind {
        NodeKind::Postfix { op, .. } => assert_eq!(op, Token::Fact),
        _ => panic!("expected postfix"),
    }
}


#[test]
fn predicate_basic() {
    let src = b"1+2";
    let t = batch_parse(src).unwrap();
    let edit = Edit { start: 0, added: 0, removed: 0 };
    assert!(reuse_predicate(t.root_node(), 0, &edit, src, src));
}

#[test]
fn predicate_overlapping_edit() {
    let src = b"1+2";
    let t = batch_parse(src).unwrap();
    let edit = Edit { start: 0, added: 1, removed: 1 };
    let new_src = b"3+2";
    assert!(!reuse_predicate(t.root_node(), 0, &edit, src, new_src));
}
