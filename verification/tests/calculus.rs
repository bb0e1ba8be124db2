//! The reuse test of a grammar given by a table.

use incremental_pratt::generator::emitter::Emitter;
use incremental_pratt::generator::spec::{Atoms, Infix, Paren, Spec};
use incremental_pratt::runtime::table::Table;
use incremental_pratt::runtime::verify::{next_token_lbp, reuse_predicate, VEdit, VNode};

fn table() -> Table {
    let infix = |sym: &str, lbp: u32| Infix {
        sym: sym.to_string(),
        lbp,
        assoc: "left".to_string(),
        class: "weak".to_string(),
    };
    let spec = Spec {
        name: "calc".to_string(),
        atoms: Atoms { int: true, ident: false },
        paren: Paren { open: "(".to_string(), close: ")".to_string() },
        prefix: vec![],
        postfix: vec![],
        infix: vec![infix("+", 10), infix("*", 20)],
        host: None,
    };
    Emitter::new(spec).unwrap().table()
}

#[test]
fn identity_edit_reuses() {
    let t = table();
    let old = b"1+1";
    let stop = next_token_lbp(&t, old, 1);
    assert_eq!(stop, 10);
    let n = VNode { start: 0, end: 1, m_spine: u32::MAX, stop_lbp: stop };
    let e = VEdit { start: 3, added: 0, removed: 0 };
    assert!(reuse_predicate(&t, n, stop, e, old, old));
}

#[test]
fn overlapping_edit_rejected() {
    let t = table();
    let old = b"1+1";
    let n = VNode { start: 0, end: 1, m_spine: u32::MAX, stop_lbp: next_token_lbp(&t, old, 1) };
    let e = VEdit { start: 0, added: 1, removed: 1 };
    let new = b"2+1";
    assert!(!reuse_predicate(&t, n, 0, e, old, new));
}
