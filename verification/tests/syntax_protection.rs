//! Subtrees whose spacing is protected.

#![allow(unused_imports, dead_code)]

use std::error::Error;

use rust_statement_spacing::config::{Bindings, Expressions, GuardChain, SelfFields, Separation, Tail};
use rust_statement_spacing::syntax::{
    parse_source, token_fingerprint, Event, EventKind, SemanticIndex,
};
use rust_statement_spacing::{
    apply_edits, plan, ByteRange, Config, Facts, Place, Plan, Rule, UnitKind,
};

fn structural(source: &str, config: &Config) -> Result<(String, Plan), String> {
    let mut parsed = parse_source(source, "2024")?;
    let anchors = SemanticIndex::structural_anchors(parsed.code_ranges());
    parsed.attach(source, &anchors);
    let result = plan(config, source, &parsed.model)?;
    let fixed = apply_edits(source, &result.edits())?;
    if token_fingerprint(source, "2024")? != token_fingerprint(&fixed, "2024")? {
        return Err("token fingerprint mismatch after edits".into());
    }
    return Ok((fixed, result));
}

fn strict() -> Config {
    let mut config = Config::default();
    config.grouping.expressions = Expressions::Strict;
    return config;
}

#[test]
fn macro_token_interiors_are_opaque() -> Result<(), Box<dyn Error>> {
    let source = "macro_rules! rules { ($x:tt) => {\n    one();\n    two();\n}; }\n";
    assert_eq!(structural(source, &strict())?.0, source);
    return Ok(());
}

#[test]
fn rustfmt_skip_protects_entire_subtree() -> Result<(), Box<dyn Error>> {
    let source = "#[rustfmt::skip]\nfn f() {\n    one();\n    two();\n}\n";
    assert_eq!(structural(source, &strict())?.0, source);
    return Ok(());
}

#[test]
fn conditional_rustfmt_skip_is_conservative() -> Result<(), Box<dyn Error>> {
    let source =
        "#[cfg_attr(feature = \"x\", rustfmt::skip)]\nfn f() {\n    one();\n    two();\n}\n";
    assert_eq!(structural(source, &strict())?.0, source);
    return Ok(());
}

#[test]
fn unknown_procedural_attribute_is_protected() -> Result<(), Box<dyn Error>> {
    let source = "#[some_transform]\nfn f() {\n    one();\n    two();\n}\n";
    assert_eq!(structural(source, &strict())?.0, source);
    return Ok(());
}
