use rust_statement_spacing::suggestions::{
    accept_suggestion, apply_file_edits, check_overlaps, record_edit, spacing_rule, text_less,
    FileEdit,
};

fn edit(relative: &str, start: usize, end: usize, before: &[u8], after: &[u8]) -> FileEdit {
    FileEdit {
        relative: relative.to_owned(),
        start,
        end,
        before: before.to_vec(),
        after: after.to_vec(),
        rule: "statement_spacing_bindings".to_owned(),
    }
}

#[test]
fn spacing_rules_are_the_tool_lints() {
    for rule in [
        "statement_spacing_bindings",
        "statement_spacing_expressions",
        "statement_spacing_control_flow",
        "statement_spacing_after_block",
        "statement_spacing_exit",
        "statement_spacing_result_check",
        "statement_spacing_item_spacing",
        "statement_spacing_layout",
    ] {
        assert!(spacing_rule(rule), "{rule}");
    }
    for rule in ["", "statement_spacing_", "clippy::needless_return", "statement_spacing_bindingsx", "bindings"] {
        assert!(!spacing_rule(rule), "{rule}");
    }
}

#[test]
fn whitespace_suggestions_are_accepted_within_the_file() {
    let data = b"let a = 1;\n\nlet b = 2;\n";
    let accepted = accept_suggestion("src/lib.rs", data, 10, 12, "\n", "statement_spacing_bindings").unwrap();
    assert_eq!(accepted, edit("src/lib.rs", 10, 12, b"\n\n", b"\n"));
}

#[test]
fn suggestions_outside_the_file_are_rejected() {
    let data = b"let a = 1;\n";
    assert_eq!(
        accept_suggestion("src/lib.rs", data, 5, 40, "", "statement_spacing_bindings"),
        Err("invalid suggestion byte range in src/lib.rs".to_owned())
    );
    assert_eq!(
        accept_suggestion("src/lib.rs", data, 6, 5, "", "statement_spacing_bindings"),
        Err("invalid suggestion byte range in src/lib.rs".to_owned())
    );
}

#[test]
fn suggestions_that_touch_code_are_rejected() {
    let data = b"let a = 1;\n";
    assert_eq!(
        accept_suggestion("src/lib.rs", data, 0, 3, "", "statement_spacing_bindings"),
        Err("non-whitespace suggestion was rejected in src/lib.rs".to_owned())
    );
    assert_eq!(
        accept_suggestion("src/lib.rs", data, 10, 11, "\n// x\n", "statement_spacing_bindings"),
        Err("non-whitespace suggestion was rejected in src/lib.rs".to_owned())
    );
}

#[test]
fn recorded_edits_stay_ordered_and_agreeing_repeats_are_merged() {
    let mut edits = Vec::new();
    record_edit(&mut edits, edit("src/b.rs", 4, 5, b"\n", b"\n\n")).unwrap();
    record_edit(&mut edits, edit("src/a.rs", 9, 10, b"\n", b"\n\n")).unwrap();
    record_edit(&mut edits, edit("src/a.rs", 2, 3, b"\n", b"\n\n")).unwrap();
    record_edit(&mut edits, edit("src/b.rs", 4, 5, b"\n", b"\n\n")).unwrap();
    let keys: Vec<_> = edits.iter().map(|e| (e.relative.as_str(), e.start)).collect();
    assert_eq!(keys, vec![("src/a.rs", 2), ("src/a.rs", 9), ("src/b.rs", 4)]);
}

#[test]
fn conflicting_target_specific_edits_are_rejected() {
    let mut edits = vec![edit("src/a.rs", 2, 3, b"\n", b"\n\n")];
    assert_eq!(
        record_edit(&mut edits, edit("src/a.rs", 2, 3, b"\n", b"")),
        Err("conflicting target-specific suggestions in src/a.rs".to_owned())
    );
    assert_eq!(edits.len(), 1);
}

#[test]
fn overlapping_or_coincident_edits_are_rejected() {
    let apart = vec![edit("src/a.rs", 0, 1, b"\n", b""), edit("src/a.rs", 1, 2, b"\n", b"")];
    assert_eq!(check_overlaps(&apart), Ok(()));
    let overlapping = vec![edit("src/a.rs", 0, 2, b"\n\n", b""), edit("src/a.rs", 1, 3, b"\n\n", b"")];
    assert_eq!(check_overlaps(&overlapping), Err("overlapping suggestions in src/a.rs".to_owned()));
    let coincident = vec![edit("src/b.rs", 4, 4, b"", b"\n"), edit("src/b.rs", 4, 5, b"\n", b"")];
    assert_eq!(check_overlaps(&coincident), Err("overlapping suggestions in src/b.rs".to_owned()));
    let other_files = vec![edit("src/a.rs", 0, 9, b"", b""), edit("src/b.rs", 1, 2, b"\n", b"")];
    assert_eq!(check_overlaps(&other_files), Ok(()));
}

#[test]
fn file_edits_apply_from_the_last_offset() {
    let data = b"a\n\n\nb\nc\n".to_vec();
    let edits = vec![edit("x.rs", 1, 4, b"\n\n\n", b"\n\n"), edit("x.rs", 5, 6, b"\n", b"\n\n")];
    assert_eq!(apply_file_edits("x.rs", &data, &edits), Ok(b"a\n\nb\n\nc\n".to_vec()));
}

#[test]
fn stale_file_edits_are_rejected() {
    let data = b"a\nb\n".to_vec();
    let edits = vec![edit("x.rs", 1, 3, b"\n\n", b"\n")];
    assert_eq!(apply_file_edits("x.rs", &data, &edits), Err("stale suggestion in x.rs".to_owned()));
}

#[test]
fn text_order_compares_bytes() {
    assert!(text_less("a", "b"));
    assert!(text_less("a", "ab"));
    assert!(!text_less("ab", "a"));
    assert!(!text_less("a", "a"));
    assert!(text_less("Z", "a"));
    assert!(text_less("z", "é"));
}
