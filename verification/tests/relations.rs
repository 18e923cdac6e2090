//! Relationship evidence between units: identities, projections and opt-outs.

use rust_statement_spacing::config::SelfFields;
use rust_statement_spacing::relations::{direct_producer, relationship, Relationship};
use rust_statement_spacing::{Config, Facts, Place};

fn facts(defs: &[&str], reads: &[&str]) -> Facts {
    return Facts {
        known: true,
        definitions: defs.iter().map(|name| return Place::local(*name)).collect(),
        reads: reads
            .iter()
            .map(|name| return Place::local(*name))
            .collect(),
        ..Facts::default()
    };
}

#[test]
fn same_spelling_with_distinct_binding_id_is_unrelated() {
    let c = Config::default();
    assert_eq!(
        relationship(
            &facts(&["scope1:x"], &[]),
            &facts(&[], &["scope2:x"]),
            &c.grouping
        ),
        Relationship::Unrelated
    );
}

#[test]
fn self_field_projection_policy() {
    let mut a = facts(&[], &[]);
    let mut b = facts(&[], &[]);
    a.receivers.push(Place {
        local: "self-id".into(),
        projections: vec!["cache".into()],
        is_self: true,
    });
    b.receivers.push(Place {
        local: "self-id".into(),
        projections: vec!["socket".into()],
        is_self: true,
    });
    let mut c = Config::default();
    assert_eq!(relationship(&a, &b, &c.grouping), Relationship::Related);
    c.grouping.self_fields = SelfFields::Distinct;
    assert_eq!(relationship(&a, &b, &c.grouping), Relationship::Unrelated);
}

#[test]
fn producer_policy_does_not_conflate_unrelated_places() {
    let c = Config::default();
    for (left, right) in [
        (
            Place {
                local: "self-id".into(),
                projections: vec!["arch".into()],
                is_self: true,
            },
            Place {
                local: "other-self-id".into(),
                projections: vec!["machine".into()],
                is_self: true,
            },
        ),
        (
            Place {
                local: "config-id".into(),
                projections: vec!["arch".into()],
                is_self: false,
            },
            Place {
                local: "config-id".into(),
                projections: vec!["machine".into()],
                is_self: false,
            },
        ),
    ] {
        let mut a = facts(&[], &[]);
        let mut b = facts(&[], &[]);
        a.writes.push(left);
        b.reads.push(right);
        assert!(!direct_producer(&a, &b, &c.grouping));
    }
}

#[test]
fn same_callee_uses_identity_and_can_be_disabled() {
    let mut a = facts(&[], &["input-a"]);
    let mut b = facts(&[], &["input-b"]);
    a.direct_callees.push("crate-a:function".into());
    b.direct_callees.push("crate-b:function".into());
    let mut c = Config::default();
    assert_eq!(relationship(&a, &b, &c.grouping), Relationship::Unrelated);
    b.direct_callees = a.direct_callees.clone();
    assert_eq!(relationship(&a, &b, &c.grouping), Relationship::Related);
    c.grouping.same_callee = false;
    assert_eq!(relationship(&a, &b, &c.grouping), Relationship::Unrelated);
    c.grouping.same_callee = true;
    b.known = false;
    assert_eq!(relationship(&a, &b, &c.grouping), Relationship::Unknown);
}

#[test]
fn aggregate_grouping_preserves_precise_producers_and_opt_outs() {
    let mut a = facts(&[], &[]);
    let mut b = facts(&[], &[]);
    a.writes.push(Place {
        local: "inputs".into(),
        projections: vec!["enabled".into()],
        is_self: false,
    });
    b.receivers.push(Place {
        local: "inputs".into(),
        projections: vec!["keys".into()],
        is_self: false,
    });
    let mut c = Config::default();
    assert_eq!(relationship(&a, &b, &c.grouping), Relationship::Related);
    assert!(!direct_producer(&a, &b, &c.grouping));
    c.grouping.same_object = false;
    assert_eq!(relationship(&a, &b, &c.grouping), Relationship::Unrelated);
    c.grouping.same_object = true;
    c.grouping.same_receiver = false;
    assert_eq!(relationship(&a, &b, &c.grouping), Relationship::Unrelated);
    c.grouping.same_receiver = true;
    b.receivers.clear();
    b.receivers.push(Place::local("other-inputs"));
    assert_eq!(relationship(&a, &b, &c.grouping), Relationship::Unrelated);
}

#[test]
fn shared_input_opt_out_also_disables_aggregate_read_grouping() {
    let mut a = facts(&[], &[]);
    let mut b = facts(&[], &[]);
    for (facts, field) in [(&mut a, "width"), (&mut b, "height")] {
        facts.reads.push(Place {
            local: "dimensions".into(),
            projections: vec![field.into()],
            is_self: false,
        });
    }
    let mut c = Config::default();
    assert_eq!(relationship(&a, &b, &c.grouping), Relationship::Related);
    c.grouping.shared_inputs = false;
    assert_eq!(relationship(&a, &b, &c.grouping), Relationship::Unrelated);
}

#[test]
fn mutation_grouping_requires_two_mutations_not_a_pure_call() {
    let mut a = facts(&[], &["collection"]);
    a.receivers.push(Place::local("collection"));
    let mut b = facts(&[], &[]);
    b.writes.push(Place::local("counter"));
    let mut c = Config::default();
    assert_eq!(relationship(&a, &b, &c.grouping), Relationship::Unrelated);
    a.mutating_receivers.push(Place::local("collection"));
    assert_eq!(relationship(&a, &b, &c.grouping), Relationship::Related);
    assert!(!direct_producer(&a, &b, &c.grouping));
    c.grouping.consecutive_mutations = false;
    assert_eq!(relationship(&a, &b, &c.grouping), Relationship::Unrelated);
    a.mutating_receivers.clear();
    a.writes.push(Place::local("collection"));
    c.grouping.consecutive_mutations = true;
    assert_eq!(relationship(&a, &b, &c.grouping), Relationship::Related);
}

#[test]
fn turning_relationships_off_keeps_unrelated_units_unrelated() {
    let mut c = Config::default();
    let a = facts(&["x"], &["input"]);
    let b = facts(&["y"], &["other"]);
    assert_eq!(relationship(&a, &b, &c.grouping), Relationship::Unrelated);
    c.grouping.same_receiver = false;
    c.grouping.shared_inputs = false;
    c.grouping.same_object = false;
    c.grouping.same_callee = false;
    c.grouping.consecutive_mutations = false;
    assert_eq!(relationship(&a, &b, &c.grouping), Relationship::Unrelated);
}
