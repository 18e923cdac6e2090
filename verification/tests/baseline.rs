use rust_statement_spacing::baseline::{
    check_baseline_header, check_baseline_size, check_entries, digest, fingerprint, suppress, tally,
    valid_fingerprint, BASELINE_LIMIT,
};

fn strings(items: &[&str]) -> Vec<String> {
    items.iter().map(|item| (*item).to_owned()).collect()
}

#[test]
fn digests_are_lowercase_sha256() {
    assert_eq!(digest(b""), "e3b0c44298fc1c149afbf4c8996fb92427ae41e4649b934ca495991b7852b855");
    assert_eq!(digest(b"abc"), "ba7816bf8f01cfea414140de5dae2223b00361a396177a9cb410ff61f20015ad");
}

#[test]
fn fingerprints_cover_the_finding_and_its_neighbouring_lines() {
    let source = "fn f() {\n    let a = 1;\n\n    let b = 2;\n}\n";
    assert_eq!(
        fingerprint("src/lib.rs", "statement_spacing_bindings", "separate these", source, 29, 39),
        Ok("f3fa88a3f0307682aa7d9379fc4aed2245d58b6b9d6184ebe35945add51aef72".to_owned())
    );
}

#[test]
fn fingerprints_write_absent_neighbours_as_null() {
    let source = "  \n  x = \"é\";  \n";
    assert_eq!(
        fingerprint("a.rs", "r", "m\"q", source, 5, 16),
        Ok("e5e9cec143f65535cbf9620e90f9755686c2a1985052c9ba99e134be3fdc1646".to_owned())
    );
}

#[test]
fn fingerprints_ignore_edits_far_from_the_finding() {
    let source = "fn f() {\n    let a = 1;\n\n    let b = 2;\n}\n";
    let moved = "// header\n\nfn f() {\n    let a = 1;\n\n    let b = 2;\n}\n";
    let offset = "// header\n\n".len();
    assert_eq!(
        fingerprint("src/lib.rs", "statement_spacing_bindings", "separate these", source, 29, 39),
        fingerprint("src/lib.rs", "statement_spacing_bindings", "separate these", moved, 29 + offset, 39 + offset)
    );
}

#[test]
fn fingerprints_refuse_spans_off_character_boundaries() {
    let source = "let é = 1;\n";
    assert_eq!(fingerprint("a.rs", "r", "m", source, 5, 7), Err("invalid baseline span".to_owned()));
    assert_eq!(fingerprint("a.rs", "r", "m", source, 3, 2), Err("invalid baseline span".to_owned()));
    assert_eq!(fingerprint("a.rs", "r", "m", source, 0, 99), Err("invalid baseline span".to_owned()));
}

#[test]
fn baseline_fingerprints_are_sixty_four_lowercase_hex_digits() {
    assert!(valid_fingerprint(&"0123456789abcdef".repeat(4)));
    assert!(!valid_fingerprint(&"0123456789ABCDEF".repeat(4)));
    assert!(!valid_fingerprint(&"a".repeat(63)));
    assert!(!valid_fingerprint(&"a".repeat(65)));
    assert!(!valid_fingerprint(""));
}

#[test]
fn baseline_entries_need_counts_and_valid_fingerprints() {
    let good = "a".repeat(64);
    assert_eq!(check_entries(&vec![(good.clone(), Some(2))]), Ok(()));
    assert_eq!(
        check_entries(&vec![(good.clone(), Some(0))]),
        Err("invalid baseline finding count".to_owned())
    );
    assert_eq!(
        check_entries(&vec![(good.clone(), None)]),
        Err("invalid baseline finding count".to_owned())
    );
    assert_eq!(
        check_entries(&vec![("xyz".to_owned(), Some(1))]),
        Err("invalid baseline fingerprint".to_owned())
    );
    assert_eq!(
        check_entries(&vec![("xyz".to_owned(), None), (good, Some(0))]),
        Err("invalid baseline finding count".to_owned())
    );
}

#[test]
fn a_baseline_suppresses_as_many_findings_as_it_counts() {
    let a = "a".repeat(64);
    let b = "b".repeat(64);
    let c = "c".repeat(64);
    let findings = vec![a.clone(), b.clone(), a.clone(), c.clone(), a.clone()];
    let entries = vec![(a.clone(), 2), (c.clone(), 5)];
    assert_eq!(suppress(&findings, &entries), vec![false, true, false, false, true]);
    assert_eq!(suppress(&findings, &Vec::new()), vec![true; 5]);
}

#[test]
fn tallies_list_each_fingerprint_once_in_order() {
    let counts = tally(&strings(&["b", "a", "b", "c", "b"]));
    assert_eq!(
        counts,
        vec![("a".to_owned(), 1), ("b".to_owned(), 3), ("c".to_owned(), 1)]
    );
    assert_eq!(tally(&Vec::new()), Vec::new());
}

#[test]
fn written_baselines_suppress_exactly_what_they_tallied() {
    let findings = strings(&["b", "a", "b"]);
    let entries: Vec<(String, u64)> = tally(&findings)
        .into_iter()
        .map(|(name, count)| (name, count as u64))
        .collect();
    assert_eq!(suppress(&findings, &entries), vec![false, false, false]);
}

#[test]
fn baselines_are_limited_in_size() {
    assert_eq!(check_baseline_size(BASELINE_LIMIT), Ok(()));
    assert_eq!(check_baseline_size(BASELINE_LIMIT + 1), Err("baseline exceeds 32 MiB".to_owned()));
}

#[test]
fn baselines_must_match_schema_version_and_coverage() {
    assert_eq!(check_baseline_header(Some(1), Some("0.1.0"), "0.1.0", true), Ok(()));
    let refused = Err("baseline schema, version, or Cargo coverage does not match this check".to_owned());
    assert_eq!(check_baseline_header(Some(2), Some("0.1.0"), "0.1.0", true), refused);
    assert_eq!(check_baseline_header(Some(1), Some("0.2.0"), "0.1.0", true), refused);
    assert_eq!(check_baseline_header(Some(1), None, "0.1.0", true), refused);
    assert_eq!(check_baseline_header(None, Some("0.1.0"), "0.1.0", true), refused);
    assert_eq!(check_baseline_header(Some(1), Some("0.1.0"), "0.1.0", false), refused);
}
