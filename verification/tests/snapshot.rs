use rust_statement_spacing::snapshot::{
    changed_files, is_ordered_snapshot, is_rust_file, source_fingerprint, states_equal, FileState,
};
use sha2::{Digest, Sha256};

fn state(digest: char, mode: u32, size: u64) -> FileState {
    FileState { digest: digest.to_string().repeat(64), mode, size }
}

#[test]
fn source_fingerprints_escape_names_beyond_ascii() {
    let files = vec![
        ("Cargo.toml".to_owned(), state('a', 0o644, 1)),
        ("src/é.rs".to_owned(), state('b', 0o644, 2)),
        ("src/😀.rs".to_owned(), state('c', 0o755, 3)),
    ];
    assert_eq!(
        source_fingerprint(&files),
        Ok("ec8fdf5c261232e205cf845d8284db56145296303c29eb344e14056f12992348".to_owned())
    );
}

#[test]
fn the_empty_snapshot_has_a_fingerprint() {
    assert_eq!(
        source_fingerprint(&Vec::new()),
        Ok("44136fa355b3678a1146ad16f7e8649e94fb4fc21fe77e8310c060f61caaff8a".to_owned())
    );
}

#[test]
fn changed_rust_files_are_listed_in_order() {
    let original = vec![
        ("Cargo.toml".to_owned(), state('a', 0o644, 1)),
        ("src/a.rs".to_owned(), state('b', 0o644, 2)),
        ("src/b.rs".to_owned(), state('c', 0o644, 3)),
    ];
    let candidate = vec![
        ("Cargo.toml".to_owned(), state('a', 0o644, 1)),
        ("src/a.rs".to_owned(), state('d', 0o644, 2)),
        ("src/b.rs".to_owned(), state('c', 0o644, 4)),
    ];
    assert_eq!(changed_files(&original, &candidate), Ok(vec!["src/a.rs".to_owned(), "src/b.rs".to_owned()]));
    assert_eq!(changed_files(&original, &original.iter().map(|(n, s)| (n.clone(), FileState { digest: s.digest.clone(), mode: s.mode, size: s.size })).collect()), Ok(Vec::new()));
}

#[test]
fn validation_may_not_touch_other_files() {
    let original = vec![("Cargo.lock".to_owned(), state('a', 0o644, 1)), ("src/a.rs".to_owned(), state('b', 0o644, 2))];
    let candidate = vec![("Cargo.lock".to_owned(), state('a', 0o600, 1)), ("src/a.rs".to_owned(), state('c', 0o644, 2))];
    assert_eq!(
        changed_files(&original, &candidate),
        Err("validation modified a non-Rust project file: Cargo.lock".to_owned())
    );
}

#[test]
fn validation_may_not_create_or_delete_files() {
    let original = vec![("src/a.rs".to_owned(), state('b', 0o644, 2))];
    let candidate = vec![("src/a.rs".to_owned(), state('b', 0o644, 2)), ("src/b.rs".to_owned(), state('b', 0o644, 2))];
    let refused = Err("validation created or deleted project files; unsupported path-sensitive build".to_owned());
    assert_eq!(changed_files(&original, &candidate), refused);
    let renamed = vec![("src/c.rs".to_owned(), state('b', 0o644, 2))];
    assert_eq!(changed_files(&original, &renamed), refused);
}

#[test]
fn rust_files_end_in_rs() {
    assert!(is_rust_file("src/lib.rs"));
    assert!(is_rust_file(".rs"));
    assert!(!is_rust_file("rs"));
    assert!(!is_rust_file("Cargo.toml"));
    assert!(!is_rust_file("src/lib.rs.orig"));
}

#[test]
fn file_states_compare_every_field() {
    assert!(states_equal(&state('a', 1, 2), &state('a', 1, 2)));
    assert!(!states_equal(&state('a', 1, 2), &state('b', 1, 2)));
    assert!(!states_equal(&state('a', 1, 2), &state('a', 3, 2)));
    assert!(!states_equal(&state('a', 1, 2), &state('a', 1, 3)));
}

#[test]
fn snapshots_list_names_in_strictly_increasing_order() {
    let ordered = vec![("a.rs".to_owned(), state('a', 0o644, 1)), ("b.rs".to_owned(), state('b', 0o644, 1))];
    assert!(is_ordered_snapshot(&ordered));
    assert!(is_ordered_snapshot(&Vec::new()));
    let reversed = vec![("b.rs".to_owned(), state('b', 0o644, 1)), ("a.rs".to_owned(), state('a', 0o644, 1))];
    assert!(!is_ordered_snapshot(&reversed));
    let repeated = vec![("a.rs".to_owned(), state('a', 0o644, 1)), ("a.rs".to_owned(), state('b', 0o644, 1))];
    assert!(!is_ordered_snapshot(&repeated));
}

#[test]
fn snapshot_names_are_written_with_json_escapes() {
    let files = vec![("a\"b\\c\u{1}\n.rs".to_owned(), state('d', 0o644, 4))];
    let text = format!("{{\"a\\\"b\\\\c\\u0001\\n.rs\": \"{}\"}}", "d".repeat(64));
    let expected = format!("{:x}", Sha256::digest(text.as_bytes()));
    assert_eq!(source_fingerprint(&files), Ok(expected));
}
