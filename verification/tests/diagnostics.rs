use rust_statement_spacing::diagnostics::{
    accept_proposal, check_json_size, check_suggestion_target, event_diagnostic, read_diagnostic,
    CompilerEvent, Diagnostic, DiagnosticSpan, Reading, Replacement, MAX_JSON_BYTES,
};

fn span(primary: bool, replacement: Replacement, machine: bool) -> DiagnosticSpan {
    DiagnosticSpan {
        file_name: Some("src/lib.rs".to_owned()),
        primary,
        line_start: Some(3),
        byte_start: Some(10),
        byte_end: Some(12),
        replacement,
        machine_applicable: machine,
    }
}

fn diagnostic(code: Option<&str>, level: &str, message: &str, spans: Vec<DiagnosticSpan>, children: Vec<Diagnostic>) -> Diagnostic {
    Diagnostic {
        code: code.map(str::to_owned),
        level: Some(level.to_owned()),
        message: Some(message.to_owned()),
        spans,
        children,
    }
}

#[test]
fn compiler_messages_and_bare_diagnostics_carry_diagnostics() {
    let inner = diagnostic(None, "error", "inner", Vec::new(), Vec::new());
    let body = diagnostic(None, "error", "body", Vec::new(), Vec::new());
    let event = CompilerEvent {
        reason: Some("compiler-message".to_owned()),
        message: Some(inner),
        message_type: None,
        body,
    };
    assert_eq!(event_diagnostic(&event).unwrap().message.as_deref(), Some("inner"));
    let bare = CompilerEvent {
        reason: None,
        message: None,
        message_type: Some("diagnostic".to_owned()),
        body: diagnostic(None, "error", "bare", Vec::new(), Vec::new()),
    };
    assert_eq!(event_diagnostic(&bare).unwrap().message.as_deref(), Some("bare"));
    let artifact = CompilerEvent {
        reason: Some("compiler-artifact".to_owned()),
        message: None,
        message_type: None,
        body: diagnostic(None, "error", "x", Vec::new(), Vec::new()),
    };
    assert!(event_diagnostic(&artifact).is_none());
}

#[test]
fn foreign_errors_are_collected() {
    match read_diagnostic(&diagnostic(Some("E0308"), "error", "mismatched types", Vec::new(), Vec::new())) {
        Reading::CompilerError(message) => assert_eq!(message, "mismatched types"),
        _ => panic!("expected an error"),
    }
    assert!(matches!(
        read_diagnostic(&diagnostic(None, "warning", "unused", Vec::new(), Vec::new())),
        Reading::Ignored
    ));
}

#[test]
fn findings_with_one_machine_applicable_suggestion_are_fixable() {
    let child = diagnostic(None, "help", "remove", vec![span(false, Replacement::Text("\n".to_owned()), true)], Vec::new());
    let d = diagnostic(
        Some("statement_spacing_bindings"),
        "warning",
        "separate",
        vec![span(false, Replacement::Missing, false), span(true, Replacement::Missing, false)],
        vec![child],
    );
    match read_diagnostic(&d) {
        Reading::Finding { rule, message, primary, proposal } => {
            assert_eq!(rule, "statement_spacing_bindings");
            assert_eq!(message, "separate");
            assert!(primary.unwrap().primary);
            assert!(matches!(proposal.unwrap().replacement, Replacement::Text(ref text) if text == "\n"));
        }
        _ => panic!("expected a finding"),
    }
}

#[test]
fn findings_with_several_or_unsure_suggestions_are_not_fixable() {
    let two = diagnostic(
        Some("statement_spacing_exit"),
        "warning",
        "m",
        vec![span(true, Replacement::Text(String::new()), true)],
        vec![diagnostic(None, "help", "h", vec![span(false, Replacement::Text(String::new()), true)], Vec::new())],
    );
    assert!(matches!(read_diagnostic(&two), Reading::Finding { proposal: None, .. }));
    let unsure = diagnostic(
        Some("statement_spacing_exit"),
        "warning",
        "m",
        vec![span(true, Replacement::Text(String::new()), false)],
        Vec::new(),
    );
    assert!(matches!(read_diagnostic(&unsure), Reading::Finding { proposal: None, .. }));
}

#[test]
fn proposals_are_checked_before_they_are_accepted() {
    let data = b"let a = 1;\n\nlet b = 2;\n";
    let good = span(true, Replacement::Text("\n".to_owned()), true);
    let edit = accept_proposal("src/lib.rs", data, &good, "statement_spacing_bindings").unwrap();
    assert_eq!((edit.start, edit.end, edit.before.as_slice(), edit.after.as_slice()), (10, 12, &b"\n\n"[..], &b"\n"[..]));
    let mut no_range = span(true, Replacement::Text("\n".to_owned()), true);
    no_range.byte_end = None;
    assert_eq!(
        accept_proposal("src/lib.rs", data, &no_range, "r").err(),
        Some("invalid suggestion byte range in src/lib.rs".to_owned())
    );
    let not_text = span(true, Replacement::NotText, true);
    assert_eq!(accept_proposal("src/lib.rs", data, &not_text, "r").err(), Some("invalid suggestion replacement".to_owned()));
    let code = span(true, Replacement::Text("x".to_owned()), true);
    assert_eq!(
        accept_proposal("src/lib.rs", data, &code, "r").err(),
        Some("non-whitespace suggestion was rejected in src/lib.rs".to_owned())
    );
}

#[test]
fn suggestions_must_target_rust_files() {
    assert_eq!(check_suggestion_target("src/lib.rs"), Ok(()));
    assert_eq!(
        check_suggestion_target("Cargo.toml"),
        Err("a statement_spacing suggestion targeted a non-Rust file: Cargo.toml".to_owned())
    );
}

#[test]
fn json_output_is_limited() {
    assert_eq!(check_json_size(MAX_JSON_BYTES), Ok(()));
    assert_eq!(
        check_json_size(MAX_JSON_BYTES + 1),
        Err("Cargo JSON output exceeds the verification limit".to_owned())
    );
}
