use rust_statement_spacing::package_name;

#[test]
fn package_name_matches_cargo_metadata() {
    assert_eq!(package_name(), "rust-statement-spacing");
}

#[test]
fn exposes_the_package_name() {
    assert_eq!(rust_statement_spacing::package_name(), "rust-statement-spacing");
}
