use rust_statement_spacing::patch::{quote_path, unified};

#[test]
fn patches_handle_empty_files_crlf_and_missing_newlines() {
    for (before, after, expected) in [
        ("", "new\n", "--- \"a/source with spaces.rs\"\n+++ \"b/source with spaces.rs\"\n@@ -0,0 +1,1 @@\n+new\n"),
        ("old\n", "", "--- \"a/source with spaces.rs\"\n+++ \"b/source with spaces.rs\"\n@@ -1,1 +0,0 @@\n-old\n"),
        ("old", "new", "--- \"a/source with spaces.rs\"\n+++ \"b/source with spaces.rs\"\n@@ -1,1 +1,1 @@\n-old\n\\ No newline at end of file\n+new\n\\ No newline at end of file\n"),
        ("old\n", "old", "--- \"a/source with spaces.rs\"\n+++ \"b/source with spaces.rs\"\n@@ -1,1 +1,1 @@\n-old\n+old\n\\ No newline at end of file\n"),
        ("a\r\nb\r\n", "a\r\n\r\nb\r\n", "--- \"a/source with spaces.rs\"\n+++ \"b/source with spaces.rs\"\n@@ -1,2 +1,3 @@\n a\r\n+\r\n b\r\n"),
        ("a\nb\nc\nd\ne\nf\ng\nh\ni\nj\n", "a\nb\nc\nd\n\ne\nf\ng\nh\ni\nj\n", "--- \"a/source with spaces.rs\"\n+++ \"b/source with spaces.rs\"\n@@ -2,6 +2,7 @@\n b\n c\n d\n+\n e\n f\n g\n"),
    ] {
        assert_eq!(unified("source with spaces.rs", before, after), expected, "{before:?} -> {after:?}");
    }
}

#[test]
fn equal_texts_give_an_empty_patch() {
    assert_eq!(unified("a.rs", "fn f() {}\n", "fn f() {}\n"), "");
}

#[test]
fn patch_headers_quote_file_names() {
    assert_eq!(
        unified("we\"ird\tname.rs", "x\n", "y\n"),
        "--- \"a/we\\\"ird\\tname.rs\"\n+++ \"b/we\\\"ird\\tname.rs\"\n@@ -1,1 +1,1 @@\n-x\n+y\n"
    );
}

#[test]
fn quoted_paths_escape_backslashes_quotes_and_control_characters() {
    assert_eq!(quote_path("src/lib.rs"), "\"src/lib.rs\"");
    assert_eq!(quote_path("a\\b\"c\nd\re\tf"), "\"a\\\\b\\\"c\\nd\\re\\tf\"");
    assert_eq!(quote_path("é.rs"), "\"é.rs\"");
}
