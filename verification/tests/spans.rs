use rust_statement_spacing::model::ByteRange;
use rust_statement_spacing::spans::{normalized_range, read_source, source_span};

#[test]
fn compiler_spans_map_into_the_file() {
    let range = normalized_range(100, 104, 110, 20).unwrap();
    assert_eq!((range.start, range.end), (4, 10));
    assert!(normalized_range(100, 99, 110, 20).is_none());
    assert!(normalized_range(100, 110, 104, 20).is_none());
    assert!(normalized_range(100, 104, 121, 20).is_none());
    let whole = normalized_range(100, 100, 120, 20).unwrap();
    assert_eq!((whole.start, whole.end), (0, 20));
}

#[test]
fn file_ranges_map_back_to_compiler_offsets() {
    assert_eq!(source_span(100, ByteRange::new(4, 10)), Some((104, 110)));
    assert_eq!(source_span(u32::MAX - 5, ByteRange::new(1, 10)), None);
    assert_eq!(source_span(0, ByteRange::new(0, u32::MAX as usize + 1)), None);
}

#[test]
fn on_disk_sources_must_match_the_compiler() {
    let text = read_source("fn f() {}\r\n".to_owned(), "fn f() {}\n").unwrap();
    assert_eq!(text.normalized_str(), "fn f() {}\n");
    assert_eq!(
        read_source("fn g() {}\n".to_owned(), "fn f() {}\n").err(),
        Some("on-disk source differs from rustc's source snapshot".to_owned())
    );
    assert_eq!(
        read_source("a\r\nb\n".to_owned(), "a\nb\n").err(),
        Some("mixed newline styles: run the project's formatter first".to_owned())
    );
}
