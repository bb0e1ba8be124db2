//! Chains, nesting and sequences of edits.

use incremental_pratt::expr::edit::Edit;
use incremental_pratt::expr::incremental::incremental_parse;
use incremental_pratt::expr::parser::parse;

fn check_equiv(old_src: &str, edit: Edit) {
    let new_src = edit.apply(old_src);
    let fresh = match parse(&new_src) {
        Ok(n) => n,
        Err(_) => return,
    };
    let old_tree = match parse(old_src) {
        Ok(n) => n,
        Err(_) => return,
    };
    let (incr, returned_new_src, _stats) = match incremental_parse(&old_tree, old_src, &edit) {
        Ok(r) => r,
        Err(_) => return, // both parsers may fail; only compare when both succeed
    };
    assert_eq!(returned_new_src, new_src);
    let (got, want) = (incr.unparse(), fresh.unparse());
    assert_eq!(
        got, want,
        "mismatch on old=`{}` edit `{}..{}` -> `{}` => new=`{}`",
        old_src, edit.start, edit.end, edit.replacement, new_src
    );
}

fn caret_chain(depth: usize) -> String {
    std::iter::repeat("a").take(depth).collect::<Vec<_>>().join(" ^ ")
}

#[test]
fn caret_chains_concrete() {
    // Hand-written cases for depths 2..6, with various edits.
    for depth in 2..7 {
        let src = caret_chain(depth);
        // touch a leaf
        check_equiv(&src, Edit { start: 0, end: 1, replacement: "b".to_string() });
        // touch an operator (replace ^ with ^ — no-op)
        let op_pos = 2; // first ^ position is byte 2 in "a ^ a"
        check_equiv(&src, Edit { start: op_pos, end: op_pos + 1, replacement: "^".to_string() });
        // replace ^ with * (lower precedence) — restructure required
        if depth >= 3 {
            check_equiv(&src, Edit { start: op_pos, end: op_pos + 1, replacement: "*".to_string() });
        }
        // insert an atom mid-chain
        if depth >= 2 {
            check_equiv(&src, Edit { start: 1, end: 1, replacement: " ^ b".to_string() });
        }
    }
}

#[test]
fn ternary_chain_concrete() {
    // Right-associative: `a ? b : c ? d : e` should be `a ? b : (c ? d : e)`.
    check_equiv("a ? b : c ? d : e", Edit {
        start: 4, end: 5, replacement: "z".to_string()
    });
    // Replace `?` with another `?` — no-op
    check_equiv("a ? b : c ? d : e", Edit {
        start: 2, end: 3, replacement: "?".to_string()
    });
    // Replace an inner `:` with `:` (no-op)
    check_equiv("a ? b : c ? d : e", Edit {
        start: 14, end: 15, replacement: ":".to_string()
    });
    // Insert a new ternary level
    check_equiv("a ? b : c", Edit {
        start: 9, end: 9, replacement: " ? d : e".to_string()
    });
    // Nested ternary in condition
    check_equiv("(a ? b : c) ? d : e", Edit {
        start: 5, end: 6, replacement: "x".to_string()
    });
    // Edit replacing entire then-branch
    check_equiv("a ? b + c : d", Edit {
        start: 4, end: 9, replacement: "x".to_string()
    });
}

fn check_multi_equiv(initial_src: &str, edits: Vec<Edit>) {
    // Replay the edits with both fresh parsing and incremental
    // reparsing; they must agree at every step.
    let mut fresh_src = initial_src.to_string();
    let mut incr_src = initial_src.to_string();
    let mut incr_tree = match parse(&incr_src) {
        Ok(n) => n,
        Err(_) => return,
    };
    for edit in &edits {
        let fresh_new = edit.apply(&fresh_src);
        let fresh_tree = match parse(&fresh_new) {
            Ok(n) => n,
            Err(_) => return,
        };
        let (next_tree, next_src, _stats) =
            match incremental_parse(&incr_tree, &incr_src, edit) {
                Ok(r) => r,
                Err(_) => return,
            };
        assert_eq!(next_src, fresh_new, "src mismatch after edit");
        let (got, want) = (next_tree.unparse(), fresh_tree.unparse());
        assert_eq!(
            got, want,
            "tree mismatch after edit on src=`{}` edit `{}..{}` -> `{}`",
            incr_src, edit.start, edit.end, edit.replacement
        );
        fresh_src = fresh_new;
        incr_src = next_src;
        incr_tree = next_tree;
    }
}

#[test]
fn two_sequential_edits() {
    check_multi_equiv("a + b * c", vec![
        Edit { start: 2, end: 3, replacement: "*".to_string() },
        Edit { start: 4, end: 5, replacement: "z".to_string() },
    ]);
}

#[test]
fn typing_a_word_one_char_at_a_time() {
    // Start with `x` and type ` + hello` one character at a time.
    let edits: Vec<Edit> = " + hello".chars().enumerate().map(|(i, c)| Edit {
        start: 1 + i as u32,
        end: 1 + i as u32,
        replacement: c.to_string(),
    }).collect();
    check_multi_equiv("x", edits);
}

#[test]
fn delete_then_reinsert() {
    check_multi_equiv("a + b * c", vec![
        Edit { start: 3, end: 8, replacement: "".to_string() },
        Edit { start: 3, end: 3, replacement: "+ b * c".to_string() },
    ]);
}

fn deeply_nested_parens(depth: usize) -> String {
    let mut s = String::from("a");
    for _ in 0..depth {
        s = format!("({})", s);
    }
    s
}

fn deeply_left_assoc(depth: usize) -> String {
    let mut s = String::from("a");
    for _ in 0..depth {
        s.push_str(" + a");
    }
    s
}

#[test]
fn deep_parens_edit_inner() {
    for depth in [3, 10, 30, 80] {
        let src = deeply_nested_parens(depth);
        // edit the innermost atom
        let pos = depth as u32;
        check_equiv(&src, Edit { start: pos, end: pos + 1, replacement: "z".to_string() });
    }
}

#[test]
fn deep_left_assoc_edit_middle_op() {
    for depth in [3, 10, 30, 80] {
        let src = deeply_left_assoc(depth);
        // edit the middle operator
        let mid_op = (src.len() / 2) as u32;
        // walk back to a `+` byte
        let bytes = src.as_bytes();
        let mut p = mid_op as usize;
        while p < bytes.len() && bytes[p] != b'+' {
            p += 1;
        }
        if p >= bytes.len() {
            continue;
        }
        check_equiv(&src, Edit { start: p as u32, end: (p + 1) as u32, replacement: "-".to_string() });
        check_equiv(&src, Edit { start: p as u32, end: (p + 1) as u32, replacement: "*".to_string() });
    }
}

fn chain_of(n: usize, sep: &str) -> String {
    std::iter::repeat("a").take(n).collect::<Vec<_>>().join(&format!(" {} ", sep))
}

#[test]
fn plus_chain_edit_in_middle() {
    // The worst case: a deeply nested associative chain, edit
    // an operand in the middle. With balanced building the chain
    // has O(log n) depth instead of O(n), so the edit's effect
    // propagates only along log(n) ancestor nodes.
    for n in [10, 50, 100, 250] {
        let src = chain_of(n, "+");
        // Edit roughly the middle `a` — replace with `bb`.
        let mid_byte = (src.len() / 2) as u32;
        // Walk forward to nearest 'a' or 'b' (skip the `+` chars).
        let bytes = src.as_bytes();
        let mut p = mid_byte as usize;
        while p < bytes.len() && bytes[p] != b'a' {
            p += 1;
        }
        if p >= bytes.len() {
            continue;
        }
        check_equiv(
            &src,
            Edit {
                start: p as u32,
                end: (p + 1) as u32,
                replacement: "bb".to_string(),
            },
        );
    }
}

#[test]
fn mixed_op_chain_edit() {
    // Mixed: `a + a * a + a * a + a` — chain detection must split
    // at non-associative boundaries and rebuild each chain's
    // balanced structure separately.
    let src = "a + a * a + a * a + a";
    check_equiv(
        src,
        Edit {
            start: 8,
            end: 9,
            replacement: "b".to_string(),
        },
    );
}

#[test]
fn and_chain_edit() {
    let src = "a && a && a && a && a && a && a";
    check_equiv(
        src,
        Edit {
            start: 11,
            end: 12,
            replacement: "b".to_string(),
        },
    );
}

#[test]
fn very_long_chain_does_not_stack_overflow() {
    // 1000-operand chain. Without balanced building this would be
    // 1000-deep recursion in the AST. With balanced building it's
    // ~10-deep. Test that both parse and unparse complete.
    let src = chain_of(1000, "+");
    let tree = parse(&src).expect("must parse");
    let _ = tree.unparse();
    // Edit at byte 1000 (middle-ish).
    let bytes = src.as_bytes();
    let mut p = 1000usize;
    while p < bytes.len() && bytes[p] != b'a' {
        p += 1;
    }
    check_equiv(
        &src,
        Edit {
            start: p as u32,
            end: (p + 1) as u32,
            replacement: "b".to_string(),
        },
    );
}
