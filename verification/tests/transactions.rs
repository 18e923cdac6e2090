use rust_statement_spacing::transactions::{check_replaced_file, journal_mode, rollback_step, RollbackStep};

#[test]
fn rollback_restores_only_what_the_transaction_wrote() {
    assert_eq!(rollback_step(Some("b"), "b", "a"), RollbackStep::Keep);
    assert_eq!(rollback_step(Some("a"), "b", "a"), RollbackStep::Restore);
    assert_eq!(rollback_step(Some("c"), "b", "a"), RollbackStep::Conflict);
    assert_eq!(rollback_step(None, "b", "a"), RollbackStep::Conflict);
}

#[test]
fn journal_modes_are_permission_bits() {
    assert_eq!(journal_mode(Some(0o644)), Some(0o644));
    assert_eq!(journal_mode(Some(0o7777)), Some(0o7777));
    assert_eq!(journal_mode(Some(0o10000)), None);
    assert_eq!(journal_mode(None), None);
}

#[test]
fn transactions_replace_only_known_rust_sources() {
    assert_eq!(check_replaced_file("src/lib.rs", true), Ok(()));
    let refused = |name: &str| Err(format!("verified mode only commits existing Rust source files: {name}"));
    assert_eq!(check_replaced_file("src/lib.rs", false), refused("src/lib.rs"));
    assert_eq!(check_replaced_file("Cargo.toml", true), refused("Cargo.toml"));
}
