//! Edits.

use incremental_pratt::expr::edit::Edit;


#[test]
fn apply_basic() {
    let e = Edit {
        start: 2,
        end: 3,
        replacement: "XYZ".to_string(),
    };
    assert_eq!(e.apply("abcdef"), "abXYZdef");
}

#[test]
fn unchanged_before() {
    let e = Edit {
        start: 5,
        end: 8,
        replacement: "x".to_string(),
    };
    assert!(e.old_range_unchanged(0, 5));
    assert_eq!(e.translate_old_range(0, 5), Some((0, 5)));
}

#[test]
fn unchanged_after() {
    let e = Edit {
        start: 5,
        end: 8,
        replacement: "x".to_string(),
    };
    // Old `[8, 12)` → after edit, delta = 1 - 3 = -2 → `[6, 10)`.
    assert_eq!(e.translate_old_range(8, 12), Some((6, 10)));
}

#[test]
fn changed_overlap() {
    let e = Edit {
        start: 5,
        end: 8,
        replacement: "x".to_string(),
    };
    assert!(!e.old_range_unchanged(4, 6));
    assert_eq!(e.translate_old_range(4, 6), None);
}
