use rust_statement_spacing::baseline::read_baseline;
use rust_statement_spacing::diagnostics::{read_event, Replacement};
use rust_statement_spacing::json::{parse_json, JsonValue};
use rust_statement_spacing::manifest::{check_manifest, read_metadata, MetadataCheck};
use rust_statement_spacing::runs::{decoded, project_root, read_handshake};
use rust_statement_spacing::suggestions::{declaration_edits, FileEdit};
use rust_statement_spacing::transactions::read_journal;
use rust_statement_spacing::workspace::safe_relative;

#[test]
fn json_values_keep_their_kinds() {
    match parse_json("{\"a\": [1, -2, 1.5, \"x\", null, true]}") {
        Ok(JsonValue::Object(entries)) => {
            assert_eq!(entries.len(), 1);
            assert_eq!(entries[0].0, "a");
            match &entries[0].1 {
                JsonValue::Array(items) => {
                    assert!(matches!(items[0], JsonValue::Number { unsigned: Some(1), signed: Some(1), .. }));
                    assert!(matches!(items[1], JsonValue::Number { unsigned: None, signed: Some(-2), .. }));
                    assert!(matches!(items[2], JsonValue::Number { unsigned: None, signed: None, .. }));
                    assert!(matches!(&items[3], JsonValue::Text(t) if t == "x"));
                    assert!(matches!(items[4], JsonValue::Null));
                    assert!(matches!(items[5], JsonValue::Bool(true)));
                }
                _ => panic!("expected an array"),
            }
        }
        _ => panic!("expected an object"),
    }
    assert!(parse_json("{").is_err());
}

#[test]
fn compiler_messages_are_read_from_json_lines() {
    let line = "{\"reason\":\"compiler-message\",\"message\":{\"code\":{\"code\":\"statement_spacing_bindings\"},\"level\":\"warning\",\"message\":\"separate\",\"spans\":[{\"file_name\":\"src/lib.rs\",\"is_primary\":true,\"line_start\":3,\"byte_start\":10,\"byte_end\":12,\"suggested_replacement\":\"\\n\\n\",\"suggestion_applicability\":\"MachineApplicable\"}],\"children\":[{\"level\":\"help\",\"message\":\"fix\",\"spans\":[],\"children\":[]}]}}";
    let event = read_event(line).expect("an event");
    assert_eq!(event.reason.as_deref(), Some("compiler-message"));
    let message = event.message.expect("a message");
    assert_eq!(message.code.as_deref(), Some("statement_spacing_bindings"));
    assert_eq!(message.level.as_deref(), Some("warning"));
    assert_eq!(message.spans.len(), 1);
    let span = &message.spans[0];
    assert_eq!(span.file_name.as_deref(), Some("src/lib.rs"));
    assert!(span.primary);
    assert_eq!((span.line_start, span.byte_start, span.byte_end), (Some(3), Some(10), Some(12)));
    assert!(matches!(&span.replacement, Replacement::Text(t) if t == "\n\n"));
    assert!(span.machine_applicable);
    assert_eq!(message.children.len(), 1);
    assert_eq!(message.children[0].message.as_deref(), Some("fix"));
    assert!(read_event("not json").is_none());
    let bare = read_event("{\"$message_type\":\"diagnostic\",\"message\":\"m\",\"spans\":[{\"suggested_replacement\":3}]}")
        .expect("an event");
    assert!(bare.message.is_none());
    assert_eq!(bare.message_type.as_deref(), Some("diagnostic"));
    assert!(matches!(bare.body.spans[0].replacement, Replacement::NotText));
}

#[test]
fn handshakes_are_read_up_to_the_first_bad_source() {
    let text = "{\"schema\":1,\"library\":\"lib\",\"version\":\"1\",\"run_id\":\"n\",\"token_hashes\":{\"a.rs\":\"h\"},\"files\":[\"a.rs\",\"b.rs\",3,\"c.rs\"],\"skipped_boundaries\":4}";
    let h = read_handshake(text).expect("a handshake");
    assert_eq!(h.schema, Some(1));
    assert_eq!(h.run_id.as_deref(), Some("n"));
    assert_eq!(h.files, vec![("a.rs".to_owned(), Some("h".to_owned())), ("b.rs".to_owned(), None)]);
    assert_eq!(h.files_error.as_deref(), Some("invalid Dylint handshake source path"));
    assert_eq!(h.skipped, Some(Some(4)));
    let missing = read_handshake("{\"files\":[]}").expect("a handshake");
    assert_eq!(missing.files_error.as_deref(), Some("Dylint handshake lacks source token fingerprints"));
    let bad = read_handshake("{\"token_hashes\":{},\"files\":1,\"skipped_boundaries\":-1}").expect("a handshake");
    assert_eq!(bad.files_error.as_deref(), Some("invalid Dylint handshake files"));
    assert_eq!(bad.skipped, Some(None));
    assert!(read_handshake("[").is_err());
}

#[test]
fn metadata_checks_follow_the_member_packages() {
    let text = "{\"workspace_root\":\"/w\",\"workspace_members\":[\"p\"],\"packages\":[{\"id\":\"q\",\"manifest_path\":\"/x/Cargo.toml\",\"targets\":[],\"dependencies\":[]},{\"id\":\"p\",\"manifest_path\":\"/w/Cargo.toml\",\"targets\":[{\"src_path\":\"/w/src/lib.rs\"}],\"dependencies\":[{\"path\":\"\"},{\"path\":\"/w/dep\"},{}]}]}";
    let checks = read_metadata(text).expect("metadata");
    let names: Vec<(u8, String)> = checks
        .into_iter()
        .map(|check| match check {
            MetadataCheck::Root(p) => (0, p),
            MetadataCheck::Inside(p) => (1, p),
            MetadataCheck::Fail(m) => (2, m),
        })
        .collect();
    assert_eq!(
        names,
        vec![
            (0, "/w".to_owned()),
            (1, "/w/Cargo.toml".to_owned()),
            (1, "/w/src/lib.rs".to_owned()),
            (1, "/w/dep".to_owned()),
        ]
    );
    let none = read_metadata("{\"workspace_root\":\"/w\",\"workspace_members\":[],\"packages\":[]}").expect("metadata");
    assert!(matches!(&none[1], MetadataCheck::Fail(m) if m == "the workspace has no compilable member packages"));
    let malformed = read_metadata("{\"workspace_members\":[],\"packages\":[]}").expect("metadata");
    assert!(matches!(&malformed[0], MetadataCheck::Fail(m) if m == "malformed Cargo metadata"));
}

#[test]
fn manifests_refuse_absolute_relocated_paths() {
    assert_eq!(check_manifest("Cargo.toml", "[package]\nname = \"a\"\nbuild = \"build.rs\"\n"), Ok(()));
    assert_eq!(
        check_manifest("Cargo.toml", "[dependencies]\nx = { path = \"/abs/x\" }\n"),
        Err("absolute manifest path cannot be relocated safely: Cargo.toml: /abs/x".to_owned())
    );
    assert_eq!(
        check_manifest("Cargo.toml", "[[bin]]\nname = \"b\"\npath = \"/abs/main.rs\"\n"),
        Err("absolute manifest path cannot be relocated safely: Cargo.toml: /abs/main.rs".to_owned())
    );
    assert!(check_manifest("Cargo.toml", "[package\n").unwrap_err().starts_with("invalid Cargo manifest Cargo.toml: "));
}

#[test]
fn relative_paths_keep_normal_segments_only() {
    assert_eq!(safe_relative("src/./lib.rs"), Some("src/lib.rs".to_owned()));
    assert_eq!(safe_relative("./a//b/"), Some("a/b".to_owned()));
    assert_eq!(safe_relative(""), None);
    assert_eq!(safe_relative("/etc/passwd"), None);
    assert_eq!(safe_relative("a/../b"), None);
    assert_eq!(safe_relative("."), None);
}

#[test]
fn process_output_is_decoded_lossily_with_universal_newlines() {
    assert_eq!(decoded(b"a\r\nb\rc"), "a\nb\nc");
    assert_eq!(decoded(&[b'x', 0xFF, b'\n']), "x\u{FFFD}\n");
}

#[test]
fn declaration_edits_keep_item_spacing_only() {
    let edit = |rule: &str| FileEdit {
        relative: "a.rs".to_owned(),
        start: 0,
        end: 1,
        before: vec![b'\n'],
        after: vec![b'\n', b'\n'],
        rule: rule.to_owned(),
    };
    let kept = declaration_edits(&vec![
        edit("statement_spacing_item_spacing"),
        edit("statement_spacing_bindings"),
        edit("statement_spacing_item_spacing"),
    ]);
    assert_eq!(kept.len(), 2);
    assert!(kept.iter().all(|e| e.rule == "statement_spacing_item_spacing"));
}

#[test]
fn journals_are_read_when_their_schema_is_known() {
    let text = b"{\"schema\":1,\"phase\":\"prepared\",\"files\":[{\"path\":\"a.rs\",\"backup\":\"0\",\"before\":\"b\",\"after\":\"c\",\"mode\":420},{\"path\":1}]}";
    let journal = read_journal(text).expect("a journal");
    assert!(!journal.complete);
    let files = journal.files.expect("files");
    assert_eq!(files.len(), 2);
    assert_eq!(files[0].path.as_deref(), Some("a.rs"));
    assert_eq!(files[0].mode, Some(420));
    assert_eq!(files[1].path, None);
    let complete = read_journal(b"{\"schema\":2,\"phase\":\"complete\",\"files\":[]}").expect("a journal");
    assert!(complete.complete);
    assert!(complete.files.is_none());
    assert!(read_journal(b"\xff").is_err());
}

#[test]
fn baselines_are_read_against_the_run_coverage() {
    let coverage = parse_json("{\"workspace\":true,\"features\":[]}").expect("coverage");
    let text = b"{\"schema\":1,\"version\":\"1.0\",\"coverage\":{\"features\":[],\"workspace\":true},\"findings\":{\"f\":2,\"g\":-1}}";
    let document = read_baseline(text, &coverage).expect("a baseline");
    assert_eq!(document.schema, Some(1));
    assert_eq!(document.version.as_deref(), Some("1.0"));
    assert!(document.same_coverage);
    assert_eq!(document.findings, Some(vec![("f".to_owned(), Some(2)), ("g".to_owned(), None)]));
    let other = read_baseline(b"{\"coverage\":{\"workspace\":false}}", &coverage).expect("a baseline");
    assert!(!other.same_coverage);
    assert!(other.findings.is_none());
}

#[test]
fn locate_project_output_names_the_root_manifest() {
    assert_eq!(project_root("{\"root\":\"/w/Cargo.toml\"}"), Some("/w/Cargo.toml".to_owned()));
    assert_eq!(project_root("{\"root\":1}"), None);
    assert_eq!(project_root("nope"), None);
}
