//! Tokens.

use incremental_pratt::expr::lexer::{tokenize, TokenKind};


#[test]
fn lex_arith() {
    let toks = tokenize("a + b * 12");
    let kinds: Vec<_> = toks.iter().map(|t| t.kind).collect();
    assert_eq!(
        kinds,
        vec![
            TokenKind::Ident,
            TokenKind::Plus,
            TokenKind::Ident,
            TokenKind::Star,
            TokenKind::Int,
            TokenKind::Eof,
        ]
    );
}

#[test]
fn lex_multichar() {
    let toks = tokenize("x && y || z != 0");
    let kinds: Vec<_> = toks.iter().map(|t| t.kind).collect();
    assert_eq!(
        kinds,
        vec![
            TokenKind::Ident,
            TokenKind::AndAnd,
            TokenKind::Ident,
            TokenKind::OrOr,
            TokenKind::Ident,
            TokenKind::BangEq,
            TokenKind::Int,
            TokenKind::Eof,
        ]
    );
}

#[test]
fn lex_spans() {
    let toks = tokenize("a+b");
    assert_eq!(toks[0].start, 0);
    assert_eq!(toks[0].end, 1);
    assert_eq!(toks[1].start, 1);
    assert_eq!(toks[1].end, 2);
    assert_eq!(toks[2].start, 2);
    assert_eq!(toks[2].end, 3);
}
