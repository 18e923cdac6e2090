//! Statement separation and block padding on parsed source.

#![allow(unused_imports, dead_code)]

use std::error::Error;

use rust_statement_spacing::config::{Bindings, Expressions, GuardChain, SelfFields, Separation, Tail};
use rust_statement_spacing::syntax::{
    parse_source, token_fingerprint, Event, EventKind, SemanticIndex,
};
use rust_statement_spacing::{
    apply_edits, plan, ByteRange, Config, Facts, Place, Plan, Rule, UnitKind,
};

fn structural(source: &str, config: &Config) -> Result<(String, Plan), String> {
    let mut parsed = parse_source(source, "2024")?;
    let anchors = SemanticIndex::structural_anchors(parsed.code_ranges());
    parsed.attach(source, &anchors);
    let result = plan(config, source, &parsed.model)?;
    let fixed = apply_edits(source, &result.edits())?;
    if token_fingerprint(source, "2024")? != token_fingerprint(&fixed, "2024")? {
        return Err("token fingerprint mismatch after edits".into());
    }
    return Ok((fixed, result));
}

fn strict() -> Config {
    let mut config = Config::default();
    config.grouping.expressions = Expressions::Strict;
    return config;
}

#[test]
fn basic_statement_separation() -> Result<(), Box<dyn Error>> {
    let source = "fn f() {\n    one();\n    two();\n}\n";
    let (fixed, result) = structural(source, &strict())?;
    assert_eq!(result.edits().len(), 1);
    assert_eq!(fixed, "fn f() {\n    one();\n\n    two();\n}\n");
    assert!(structural(&fixed, &strict())?.1.findings.is_empty());

    return Ok(());
}

#[test]
fn single_line_boundary_has_diagnostic_without_fix() -> Result<(), Box<dyn Error>> {
    let source = "fn f() { one(); two(); }\n";
    let (fixed, result) = structural(source, &strict())?;
    assert_eq!(fixed, source);
    assert!(!result.findings.is_empty());
    assert!(result.edits().is_empty());

    return Ok(());
}

#[test]
fn layout_removes_only_whitespace_padding() -> Result<(), Box<dyn Error>> {
    let source = "fn f() {\n\n    one();\n\n}\n";
    let config = Config::only(&[Rule::Layout]);
    assert_eq!(structural(source, &config)?.0, "fn f() {\n    one();\n}\n");

    return Ok(());
}

#[test]
fn audit_constants_keep_multiline_declarations_separate() -> Result<(), Box<dyn Error>> {
    let mut config = Config::default();
    config.grouping.join_related = true;
    let source = "const A: &str = r#\"first\nsecond\"#;\nconst B: &str = r#\"third\nfourth\"#;\n";
    let expected = source.replace("\nconst B", "\n\nconst B");

    for input in [source, expected.as_str()] {
        assert_eq!(structural(input, &config)?.0, expected);
    }

    assert_eq!(
        structural("const A: u32 = 1;\n\nconst B: u32 = 2;\n", &config)?.0,
        "const A: u32 = 1;\nconst B: u32 = 2;\n"
    );

    return Ok(());
}
