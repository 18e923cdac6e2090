use rust_statement_spacing::model::Rule;
use rust_statement_spacing::workspace::{is_generated, is_relative_pattern, ConfigTable, Workspace};

fn workspace(include_generated: bool, exclude: &[&str]) -> Workspace {
    let mut table = ConfigTable::default();
    table.include_generated = include_generated;
    table.exclude = exclude.iter().map(|pattern| (*pattern).to_owned()).collect();
    match table.resolve("/workspace".to_owned()) {
        Ok((_, workspace)) => workspace,
        Err(error) => panic!("{error}"),
    }
}

#[test]
fn selection_overrides_preserve_workspace_safety() {
    let defaults = match ConfigTable::default().resolve("/workspace".to_owned()) {
        Ok((_, workspace)) => workspace,
        Err(error) => panic!("{error}"),
    };
    let source = "// @generated\nfn generated() {}\n";
    assert!(!defaults.includes(Some("src/generated.rs"), source));
    assert!(!defaults.includes(Some("vendor/file.rs"), ""));
    assert!(defaults.includes(Some("src/lib.rs"), "fn f() {}\n"));

    let configured = workspace(true, &["src/ignored/**"]);
    assert!(configured.includes(Some("src/generated.rs"), source));
    assert!(configured.includes(Some("vendor/file.rs"), ""));
    assert!(!configured.includes(Some("src/ignored/file.rs"), ""));
    assert!(!configured.includes(Some("nested/target/file.rs"), ""));
    assert!(!configured.includes(None, ""));
}

#[test]
fn backslashes_count_as_separators() {
    let configured = workspace(true, &["src/ignored/**"]);
    assert!(!configured.includes(Some("src\\ignored\\file.rs"), ""));
    assert!(!configured.includes(Some("nested\\target\\file.rs"), ""));
    assert!(configured.includes(Some("src\\kept.rs"), ""));
}

#[test]
fn exclusions_must_stay_in_the_workspace() {
    for pattern in ["../outside/**", "/absolute/**", "src/../../x"] {
        let mut table = ConfigTable::default();
        table.exclude = vec![pattern.to_owned()];
        match table.resolve("/workspace".to_owned()) {
            Ok(_) => panic!("accepted {pattern}"),
            Err(error) => assert_eq!(error, format!("exclusion must be workspace-relative: {pattern}")),
        }
    }
    assert!(is_relative_pattern("src/**"));
    assert!(is_relative_pattern("a..b/**"));
    assert!(!is_relative_pattern(".."));
}

#[test]
fn invalid_globs_are_rejected() {
    let mut table = ConfigTable::default();
    table.exclude = vec!["[".to_owned()];
    assert!(table.resolve("/workspace".to_owned()).is_err());
}

#[test]
fn invalid_policies_are_rejected_before_the_workspace() {
    let mut table = ConfigTable::default();
    table.schema_version = 2;
    table.exclude = vec!["../x".to_owned()];
    match table.resolve("/workspace".to_owned()) {
        Ok(_) => panic!("accepted schema 2"),
        Err(error) => assert_eq!(error, "statement_spacing.schema_version must be 1"),
    }
    let mut table = ConfigTable::default();
    table.enable = vec![Rule::Exit];
    table.disable = vec![Rule::Exit];
    assert!(table.resolve("/workspace".to_owned()).is_err());
}

#[test]
fn generated_markers_are_searched_in_the_first_twenty_lines() {
    assert!(is_generated("// @generated by a tool\n"));
    assert!(is_generated("// DO NOT EDIT\n"));
    assert!(is_generated("/* This file was Automatically Generated */"));
    let late = format!("{}// @generated\n", "\n".repeat(19));
    assert!(is_generated(&late));
    let too_late = format!("{}// @generated\n", "\n".repeat(20));
    assert!(!is_generated(&too_late));
    assert!(!is_generated("fn main() {}\n"));
    assert!(!is_generated(""));
}

#[test]
fn the_root_is_kept() {
    assert_eq!(workspace(false, &[]).root(), "/workspace");
}
