use rust_statement_spacing::analysis::{analyze_file, token_hash};
use rust_statement_spacing::syntax::SemanticIndex;
use rust_statement_spacing::Config;

fn pairs(items: &[(&str, &str)]) -> Vec<(String, String)> {
    items.iter().map(|(kind, text)| ((*kind).to_owned(), (*text).to_owned())).collect()
}

#[test]
fn token_hashes_digest_the_tokens_as_compact_json() {
    assert_eq!(
        token_hash(&pairs(&[("FN_KW", "fn"), ("IDENT", "é\"x")])),
        Ok("85d4c0ba05bba93a213e1365e80189ec2a3587b76da3972b91747bf4fea9e819".to_owned())
    );
    assert_eq!(
        token_hash(&Vec::new()),
        Ok("4f53cda18c2baa0c0354bb5f9a3ecbe5ed12ab4d8e11ba873c2f11161202b945".to_owned())
    );
}

#[test]
fn a_file_is_read_parsed_planned_and_fingerprinted() {
    let source = "fn f() {\n    let a = 1;\n    let b = a;\n}\n";
    let analysis = analyze_file(&Config::default(), source.to_owned(), source, "2021", &SemanticIndex::default()).unwrap();
    assert_eq!(analysis.text.normalized_str(), source);
    assert_eq!(analysis.token_hash.len(), 64);
    assert_eq!(token_hash(&analysis.tokens), Ok(analysis.token_hash.clone()));
}

#[test]
fn token_hashes_ignore_whitespace() {
    let compact = "fn f() {\n    let a = 1;\n    let b = a;\n}\n";
    let spaced = "fn f() {\n    let a = 1;\n\n    let b = a;\n}\n";
    let config = Config::default();
    let index = SemanticIndex::default();
    let first = analyze_file(&config, compact.to_owned(), compact, "2021", &index).unwrap();
    let second = analyze_file(&config, spaced.to_owned(), spaced, "2021", &index).unwrap();
    assert_eq!(first.token_hash, second.token_hash);
}

#[test]
fn files_that_differ_from_the_compiler_are_refused() {
    let index = SemanticIndex::default();
    let config = Config::default();
    assert_eq!(
        analyze_file(&config, "fn g() {}\n".to_owned(), "fn f() {}\n", "2021", &index).err(),
        Some("on-disk source differs from rustc's source snapshot".to_owned())
    );
    assert_eq!(
        analyze_file(&config, "fn f() {}\r\nfn g() {}\n".to_owned(), "fn f() {}\nfn g() {}\n", "2021", &index).err(),
        Some("mixed newline styles: run the project's formatter first".to_owned())
    );
}

#[test]
fn unsupported_editions_and_invalid_settings_are_refused() {
    let index = SemanticIndex::default();
    let source = "fn f() {}\n";
    assert_eq!(
        analyze_file(&Config::default(), source.to_owned(), source, "2017", &index).err(),
        Some("unsupported Rust edition: 2017".to_owned())
    );
    let mut config = Config::default();
    config.schema_version = 2;
    assert_eq!(
        analyze_file(&config, source.to_owned(), source, "2021", &index).err(),
        Some("statement_spacing.schema_version must be 1".to_owned())
    );
    let broken = "fn f( {\n";
    let error = analyze_file(&Config::default(), broken.to_owned(), broken, "2021", &index).err().unwrap();
    assert!(error.starts_with("source parser rejected this file: "), "{error}");
}
