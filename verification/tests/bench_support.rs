//! Sources and numbers that measurements use.

use incremental_pratt::runtime::bench_support::{leaf_positions, nested, Rng};

#[test]
fn nested_sources() {
    assert_eq!(nested(0, "1", "+", "(", ")"), "1");
    assert_eq!(nested(1, "1", " + ", "(", ")"), "(1 + 1)");
    assert_eq!(nested(2, "a", "*", "[", "]"), "[[a*a]*[a*a]]");
}

#[test]
fn leaves_are_where_atoms_start() {
    assert_eq!(leaf_positions("(1+1)", "1"), vec![1, 3]);
    assert_eq!(leaf_positions("abab", "ab"), vec![0, 2]);
    assert!(leaf_positions("", "a").is_empty());
}

#[test]
fn numbers_repeat() {
    let mut r = Rng(1);
    assert_eq!(r.next(), 1082269761);
    assert_eq!(r.0, 1082269761);
    let mut s = Rng(1);
    assert_eq!(s.below(1000), 761);
    let mut zero = Rng(0);
    assert_eq!(zero.next(), 0);
}
