//! Trees of expressions.

use incremental_pratt::expr::ast::NodeKind;
use incremental_pratt::expr::parser::parse;


#[test]
fn atom() {
    let n = parse("42").unwrap();
    assert_eq!(n.unparse(), "42");
    assert_eq!(n.m_spine, u32::MAX);
}

#[test]
fn left_assoc() {
    let n = parse("a + b + c").unwrap();
    assert_eq!(n.unparse(), "((a + b) + c)");
    assert_eq!(n.m_spine, 50);
}

#[test]
fn precedence() {
    let n = parse("a + b * c").unwrap();
    assert_eq!(n.unparse(), "(a + (b * c))");
    assert_eq!(n.m_spine, 50);
    if let NodeKind::Binary { right, .. } = &n.kind {
        assert_eq!(right.m_spine, 60);
    } else {
        panic!();
    }
}

#[test]
fn right_assoc() {
    let n = parse("a ^ b ^ c").unwrap();
    assert_eq!(n.unparse(), "(a ^ (b ^ c))");
    assert_eq!(n.m_spine, 70);
}

#[test]
fn prefix() {
    let n = parse("-a + b").unwrap();
    assert_eq!(n.unparse(), "((-a) + b)");
}

#[test]
fn ternary() {
    let n = parse("a ? b : c ? d : e").unwrap();
    assert_eq!(n.unparse(), "(a ? b : (c ? d : e))");
}

#[test]
fn parens() {
    let n = parse("(a + b) * c").unwrap();
    assert_eq!(n.unparse(), "((a + b) * c)");
}

#[test]
fn call_no_args() {
    let n = parse("f()").unwrap();
    assert_eq!(n.unparse(), "(f())");
}

#[test]
fn call_one_arg() {
    let n = parse("f(x)").unwrap();
    assert_eq!(n.unparse(), "(f(x))");
}

#[test]
fn call_many_args() {
    let n = parse("f(a, b, c)").unwrap();
    assert_eq!(n.unparse(), "(f(a, b, c))");
}

#[test]
fn call_arg_is_expr() {
    let n = parse("f(a + b * c)").unwrap();
    assert_eq!(n.unparse(), "(f((a + (b * c))))");
}

#[test]
fn member_chain() {
    let n = parse("a.b.c").unwrap();
    assert_eq!(n.unparse(), "((a.b).c)");
}

#[test]
fn index_basic() {
    let n = parse("a[i]").unwrap();
    assert_eq!(n.unparse(), "(a[i])");
}

#[test]
fn postfix_mixed_chain() {
    let n = parse("a.b(x)[i].c").unwrap();
    assert_eq!(n.unparse(), "((((a.b)(x))[i]).c)");
}

#[test]
fn postfix_binds_tighter_than_infix() {
    let n = parse("a + b.c").unwrap();
    assert_eq!(n.unparse(), "(a + (b.c))");
}

#[test]
fn postfix_binds_tighter_than_prefix() {
    let n = parse("-a.b").unwrap();
    assert_eq!(n.unparse(), "(-(a.b))");
}

#[test]
fn nested_calls() {
    let n = parse("f(g(x))").unwrap();
    assert_eq!(n.unparse(), "(f((g(x))))");
}
