//! Joining compiler anchors and events to source units.

#![allow(unused_imports, dead_code)]

use std::error::Error;

use rust_statement_spacing::config::{Bindings, Expressions, GuardChain, SelfFields, Separation, Tail};
use rust_statement_spacing::syntax::{
    parse_source, token_fingerprint, Event, EventKind, SemanticIndex,
};
use rust_statement_spacing::{
    apply_edits, plan, ByteRange, Config, Facts, Place, Plan, Rule, UnitKind,
};

fn structural(source: &str, config: &Config) -> Result<(String, Plan), String> {
    let mut parsed = parse_source(source, "2024")?;
    let anchors = SemanticIndex::structural_anchors(parsed.code_ranges());
    parsed.attach(source, &anchors);
    let result = plan(config, source, &parsed.model)?;
    let fixed = apply_edits(source, &result.edits())?;
    if token_fingerprint(source, "2024")? != token_fingerprint(&fixed, "2024")? {
        return Err("token fingerprint mismatch after edits".into());
    }
    return Ok((fixed, result));
}

fn strict() -> Config {
    let mut config = Config::default();
    config.grouping.expressions = Expressions::Strict;
    return config;
}

#[test]
fn no_compiler_mapping_means_no_edits() -> Result<(), Box<dyn Error>> {
    let source = "fn f() {\n    one();\n    two();\n}\n";
    let parsed = parse_source(source, "2024")?;
    assert!(plan(&strict(), source, &parsed.model)?.findings.is_empty());
    return Ok(());
}

#[test]
fn projection_prunes_incidental_base_reads() {
    let index = SemanticIndex {
        anchors: vec![],
        events: vec![
            Event {
                range: ByteRange::new(0, 4),
                kind: EventKind::Read,
                place: Some(Place::local("self")),
            },
            Event {
                range: ByteRange::new(0, 10),
                kind: EventKind::Read,
                place: Some(Place {
                    local: "self".into(),
                    projections: vec![".cache".into()],
                    is_self: true,
                }),
            },
        ],
    };
    let facts = index.facts(ByteRange::new(0, 12), None, None, &[], &[], false);
    assert_eq!(facts.reads.len(), 1);
    assert!(!facts.reads.contains(&Place::local("self")));
}

#[test]
fn direct_callee_ignores_nested_and_deferred_operations() {
    let index = SemanticIndex {
        anchors: Vec::new(),
        events: vec![
            Event {
                range: ByteRange::new(0, 29),
                kind: EventKind::DirectCallee("outer".into()),
                place: None,
            },
            Event {
                range: ByteRange::new(6, 15),
                kind: EventKind::DirectCallee("argument".into()),
                place: None,
            },
            Event {
                range: ByteRange::new(19, 27),
                kind: EventKind::DirectCallee("deferred".into()),
                place: None,
            },
        ],
    };
    let facts = index.facts(
        ByteRange::new(0, 30),
        None,
        None,
        &[],
        &[ByteRange::new(18, 28)],
        false,
    );
    assert_eq!(facts.direct_callees, vec![String::from("outer")]);
    let deferred = index.facts(
        ByteRange::new(19, 28),
        None,
        None,
        &[],
        &[ByteRange::new(18, 28)],
        false,
    );
    assert!(deferred.direct_callees.is_empty());
}

#[test]
fn enclosing_expression_does_not_inherit_an_inner_callee() {
    let index = SemanticIndex {
        anchors: Vec::new(),
        events: vec![Event {
            range: ByteRange::new(0, 10),
            kind: EventKind::DirectCallee("nested".into()),
            place: None,
        }],
    };
    let facts = index.facts(ByteRange::new(0, 20), None, None, &[], &[], false);
    assert!(facts.direct_callees.is_empty());
}

#[test]
fn mutable_receiver_is_not_an_assignment_write() {
    let receiver = Place::local("collection");
    let index = SemanticIndex {
        anchors: Vec::new(),
        events: vec![Event {
            range: ByteRange::new(0, 10),
            kind: EventKind::MutatingReceiver,
            place: Some(receiver.clone()),
        }],
    };
    let facts = index.facts(ByteRange::new(0, 20), None, None, &[], &[], false);
    assert!(facts.writes.is_empty());
    assert_eq!(facts.mutating_receivers, vec![receiver]);
}

#[test]
fn inactive_sibling_is_a_barrier_not_a_deleted_unit() -> Result<(), Box<dyn Error>> {
    let source = "fn f() {\n    one();\n    #[cfg(any())]\n    two();\n    three();\n}\n";
    let mut parsed = parse_source(source, "2024")?;
    let mut semantics = SemanticIndex::structural_anchors(parsed.code_ranges());
    let disabled_start = source
        .find("two();")
        .ok_or("expected token in source fixture")?;
    semantics
        .anchors
        .retain(|anchor| return anchor.range.start != disabled_start);
    parsed.attach(source, &semantics);
    assert!(plan(&strict(), source, &parsed.model)?.edits().is_empty());
    return Ok(());
}

#[test]
fn block_valued_condition_is_part_of_the_header() -> Result<(), Box<dyn Error>> {
    let source = "fn f() {\n    if { ready } {\n        action();\n    }\n}\n";
    let mut parsed = parse_source(source, "2024")?;
    let mut semantics = SemanticIndex::structural_anchors(parsed.code_ranges());
    let start = source
        .find("ready")
        .ok_or("expected token in source fixture")?;
    let ready = Place::local("ready-id");
    semantics.events.push(Event {
        range: ByteRange::new(start, start + 5),
        kind: EventKind::Read,
        place: Some(ready.clone()),
    });
    parsed.attach(source, &semantics);
    let control = parsed
        .model
        .lists
        .iter()
        .flat_map(|list| return &list.units)
        .find(|unit| return unit.kind == UnitKind::Control)
        .ok_or("expected control-flow unit in parsed fixture")?;
    assert!(control.facts.header_reads.contains(&ready));
    return Ok(());
}

#[test]
fn first_match_arm_operation_does_not_include_nested_body_reads() -> Result<(), Box<dyn Error>> {
    let source = "fn f() {\n    match tag {\n        _ => {\n            if ready {\n                use_value(value);\n            }\n        }\n    }\n}\n";
    let mut parsed = parse_source(source, "2024")?;
    let mut semantics = SemanticIndex::structural_anchors(parsed.code_ranges());
    let start = source
        .find("value);")
        .ok_or("expected token in source fixture")?;
    let value = Place::local("value-id");
    semantics.events.push(Event {
        range: ByteRange::new(start, start + 5),
        kind: EventKind::Read,
        place: Some(value.clone()),
    });
    parsed.attach(source, &semantics);
    let control = parsed
        .model
        .lists
        .iter()
        .flat_map(|list| return &list.units)
        .find(|unit| {
            return source
                .get(unit.code_range.as_range())
                .is_some_and(|text| return text.starts_with("match"));
        })
        .ok_or("expected control-flow unit in parsed fixture")?;
    assert!(!control.facts.first_body_reads.contains(&value));
    assert!(control.facts.whole_body_reads.contains(&value));
    return Ok(());
}
