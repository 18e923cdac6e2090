use rust_statement_spacing::runs::{
    add_skipped, check_candidate, check_compile_errors, check_edit_fingerprints, check_handshake,
    check_lint_run, diagnostic_error_message, dylint_args, fmt_failure, formatter_cargo, has_prefix,
    join, normalized_features, record_token_hash, run_failure, run_nonce, same_pairs, same_texts,
    split_commas, tail, is_lint_library_name, with_universal_newlines, LintLibrary, TAIL_CHARS,
};

fn strings(items: &[&str]) -> Vec<String> {
    items.iter().map(|item| (*item).to_owned()).collect()
}

#[test]
fn tails_keep_the_last_characters() {
    assert_eq!(tail("short"), "short");
    let long = format!("{}{}", "é".repeat(10), "x".repeat(TAIL_CHARS));
    assert_eq!(tail(&long), "x".repeat(TAIL_CHARS));
    let exact = "é".repeat(TAIL_CHARS);
    assert_eq!(tail(&exact), exact);
    let over = format!("a{}", "é".repeat(TAIL_CHARS));
    assert_eq!(tail(&over), "é".repeat(TAIL_CHARS));
}

#[test]
fn failed_runs_quote_the_command_and_its_output() {
    assert_eq!(
        run_failure(&strings(&["cargo", "+stable", "metadata"]), "out", "err"),
        "cargo +stable metadata failed:\nerr\nout"
    );
    assert_eq!(join(&Vec::new(), ", "), "");
    assert_eq!(join(&strings(&["a"]), ", "), "a");
    assert_eq!(
        fmt_failure(true, "o", "e"),
        "initial formatting failed; nothing is silently reformatted:\no\ne"
    );
    assert_eq!(
        fmt_failure(false, "o", "e"),
        "cargo fmt rejected the candidate; nothing is silently reformatted:\no\ne"
    );
}

#[test]
fn formatter_runs_name_the_toolchain() {
    assert_eq!(formatter_cargo("cargo", Some("1.80.0")), strings(&["cargo", "+1.80.0"]));
    assert_eq!(formatter_cargo("cargo", None), strings(&["cargo", "+"]));
}

#[test]
fn run_nonces_are_hexadecimal() {
    assert_eq!(run_nonce(&[0x00, 0x0f, 0xa5, 0xff]), "000fa5ff");
    assert_eq!(run_nonce(&[0u8; 24]).len(), 48);
}

#[test]
fn prefixes_compare_characters() {
    assert!(has_prefix("aborting due to 2 errors", "aborting due to"));
    assert!(has_prefix("x", ""));
    assert!(!has_prefix("abort", "aborting"));
    assert!(!has_prefix("For more", "For more information"));
}

#[test]
fn foreign_compiler_errors_are_collected_but_summaries_are_not() {
    assert_eq!(diagnostic_error_message(Some("error"), Some("mismatched types")), Some("mismatched types".to_owned()));
    assert_eq!(diagnostic_error_message(Some("failure-note"), None), Some("compiler error".to_owned()));
    assert_eq!(diagnostic_error_message(Some("error"), Some("aborting due to 1 previous error")), None);
    assert_eq!(diagnostic_error_message(Some("error"), Some("For more information about this error")), None);
    assert_eq!(diagnostic_error_message(Some("warning"), Some("unused")), None);
    assert_eq!(diagnostic_error_message(None, Some("unused")), None);
}

#[test]
fn compile_errors_quote_the_first_five() {
    assert_eq!(check_compile_errors(&Vec::new()), Ok(()));
    assert_eq!(
        check_compile_errors(&strings(&["a", "b", "c", "d", "e", "f", "g"])),
        Err("compilation produced non-statement_spacing errors: a; b; c; d; e".to_owned())
    );
    assert_eq!(
        check_compile_errors(&strings(&["only"])),
        Err("compilation produced non-statement_spacing errors: only".to_owned())
    );
}

#[test]
fn handshakes_must_come_from_this_run() {
    assert_eq!(check_handshake(Some(1), Some("statement_spacing"), Some("0.1.0"), Some("ab"), "0.1.0", "ab"), Ok(()));
    let refused = Err("Dylint handshake identity or run nonce did not match".to_owned());
    assert_eq!(check_handshake(Some(2), Some("statement_spacing"), Some("0.1.0"), Some("ab"), "0.1.0", "ab"), refused);
    assert_eq!(check_handshake(Some(1), Some("other"), Some("0.1.0"), Some("ab"), "0.1.0", "ab"), refused);
    assert_eq!(check_handshake(Some(1), Some("statement_spacing"), Some("0.0.9"), Some("ab"), "0.1.0", "ab"), refused);
    assert_eq!(check_handshake(Some(1), Some("statement_spacing"), Some("0.1.0"), Some("cd"), "0.1.0", "ab"), refused);
    assert_eq!(check_handshake(Some(1), Some("statement_spacing"), Some("0.1.0"), None, "0.1.0", "ab"), refused);
}

#[test]
fn lint_runs_need_a_handshake_and_findings_when_failing() {
    assert_eq!(check_lint_run(1, 0, 0, "e"), Ok(()));
    assert_eq!(check_lint_run(2, 101, 3, "e"), Ok(()));
    assert_eq!(
        check_lint_run(0, 0, 4, "stderr"),
        Err("statement_spacing did not report a fresh compiler run. Configure its Dylint metadata or pass --library-path; cached diagnostics are not accepted as verification.\nstderr".to_owned())
    );
    assert_eq!(
        check_lint_run(1, 101, 0, "stderr"),
        Err("Dylint failed without actionable statement_spacing diagnostics:\nstderr".to_owned())
    );
}

#[test]
fn skipped_boundaries_add_up_without_overflow() {
    assert_eq!(add_skipped(3, None), Ok(3));
    assert_eq!(add_skipped(3, Some(Some(4))), Ok(7));
    let refused = Err("invalid Dylint handshake skipped boundaries".to_owned());
    assert_eq!(add_skipped(3, Some(None)), refused);
    assert_eq!(add_skipped(u64::MAX, Some(Some(1))), refused);
}

#[test]
fn token_fingerprints_are_recorded_by_file() {
    let a = "a".repeat(64);
    let b = "b".repeat(64);
    let mut hashes = Vec::new();
    assert_eq!(record_token_hash(&mut hashes, "src/z.rs", Some(&a)), Ok(()));
    assert_eq!(record_token_hash(&mut hashes, "src/a.rs", Some(&b)), Ok(()));
    assert_eq!(record_token_hash(&mut hashes, "src/z.rs", Some(&a)), Ok(()));
    assert_eq!(hashes, vec![("src/a.rs".to_owned(), b.clone()), ("src/z.rs".to_owned(), a.clone())]);
    assert_eq!(
        record_token_hash(&mut hashes, "src/z.rs", Some(&b)),
        Err("target-specific token fingerprints disagree for src/z.rs".to_owned())
    );
    assert_eq!(
        record_token_hash(&mut hashes, "src/m.rs", Some("nothex")),
        Err("invalid/missing source token fingerprint for src/m.rs".to_owned())
    );
    assert_eq!(
        record_token_hash(&mut hashes, "src/m.rs", None),
        Err("invalid/missing source token fingerprint for src/m.rs".to_owned())
    );
    assert_eq!(hashes.len(), 2);
}

#[test]
fn edits_need_checked_files() {
    let hashes = vec![("src/a.rs".to_owned(), "a".repeat(64))];
    assert_eq!(check_edit_fingerprints(&strings(&["src/a.rs", "src/a.rs"]), &hashes), Ok(()));
    assert_eq!(
        check_edit_fingerprints(&strings(&["src/a.rs", "src/b.rs"]), &hashes),
        Err("a suggested edit lacks a checked source token fingerprint".to_owned())
    );
}

#[test]
fn lint_runs_select_library_features_and_target() {
    assert_eq!(
        dylint_args("cargo", &LintLibrary::Metadata, "/w/Cargo.toml", false, false, &Vec::new(), None),
        strings(&["cargo", "dylint", "--all", "--workspace", "--", "--all-targets", "--locked", "--message-format=json", "--manifest-path", "/w/Cargo.toml"])
    );
    assert_eq!(
        dylint_args("cargo", &LintLibrary::Prebuilt("/l.so".to_owned()), "M", true, true, &strings(&["a", "b,c"]), Some("wasm32")),
        strings(&["cargo", "dylint", "--lib-path", "/l.so", "--workspace", "--", "--all-targets", "--locked", "--message-format=json", "--manifest-path", "M", "--all-features", "--no-default-features", "--features", "a,b,c", "--target", "wasm32"])
    );
    assert_eq!(
        dylint_args("c", &LintLibrary::Source("/lint".to_owned()), "M", false, false, &Vec::new(), None)[2..4],
        strings(&["--path", "/lint"])[..]
    );
}

#[test]
fn features_split_at_commas() {
    assert_eq!(split_commas("a,b"), strings(&["a", "b"]));
    assert_eq!(split_commas(""), strings(&[""]));
    assert_eq!(split_commas("a,,b,"), strings(&["a", "", "b", ""]));
    assert_eq!(split_commas("é"), strings(&["é"]));
}

#[test]
fn coverage_features_are_sorted_and_unique() {
    assert_eq!(normalized_features(&strings(&["serde,b", "a", "b"])), strings(&["a", "b", "serde"]));
    assert_eq!(normalized_features(&Vec::new()), Vec::<String>::new());
}

#[test]
fn candidates_must_be_clean_fixed_points() {
    let files = strings(&["src/a.rs"]);
    let hashes = vec![("src/a.rs".to_owned(), "a".repeat(64))];
    assert_eq!(check_candidate(0, 0, &files, &files, &hashes, &hashes), Ok(()));
    assert_eq!(
        check_candidate(1, 0, &files, &files, &hashes, &hashes),
        Err("candidate is not a lint fixed point; the complete transaction was rejected".to_owned())
    );
    assert_eq!(
        check_candidate(0, 0, &files, &strings(&["src/b.rs"]), &hashes, &hashes),
        Err("compiler coverage changed between the original and candidate runs".to_owned())
    );
    let other = vec![("src/a.rs".to_owned(), "b".repeat(64))];
    assert_eq!(
        check_candidate(0, 0, &files, &files, &hashes, &other),
        Err("candidate changed code/comment/literal tokens; transaction rejected".to_owned())
    );
    assert!(same_texts(&files, &files));
    assert!(!same_pairs(&hashes, &other));
}

#[test]
fn lint_libraries_are_recognised_by_marker_and_extension() {
    assert!(is_lint_library_name("librust_statement_spacing@nightly-2025-01-01-x86_64-unknown-linux-gnu.so"));
    assert!(is_lint_library_name("statement_spacing@toolchain.dylib"));
    assert!(is_lint_library_name("statement_spacing@toolchain.dll"));
    assert!(!is_lint_library_name("librust_statement_spacing.so"));
    assert!(!is_lint_library_name("statement_spacing@toolchain.rlib"));
    assert!(!is_lint_library_name("statement_spacing@toolchain.so.d"));
}

#[test]
fn process_output_gets_universal_newlines() {
    assert_eq!(with_universal_newlines("a\r\nb\rc\nd"), "a\nb\nc\nd");
    assert_eq!(with_universal_newlines("\r\r\n"), "\n\n");
    assert_eq!(with_universal_newlines("é\r"), "é\n");
    assert_eq!(with_universal_newlines(""), "");
}
