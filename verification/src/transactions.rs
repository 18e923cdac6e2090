//! The decisions of a transaction that replaces workspace files: which files
//! it may replace, and what a rollback does with each file of its journal.
use vstd::prelude::*;
use vstd::string::StringExecFns;

use crate::json::{
    as_text, as_unsigned, field, get, json_of_bytes, parse_json_bytes, text_at, text_view, unsigned_at, JsonValue,
};
use crate::snapshot::{is_rust_file, rust_file};
use crate::syntax::tree::same_text;

verus! {

/// What a rollback does with one file of the journal.
#[derive(PartialEq, Eq, Structural, Debug, Clone, Copy)]
pub enum RollbackStep {
    /// The file holds its original contents already.
    Keep,
    /// The file holds what the transaction wrote: restore the original.
    Restore,
    /// The file was changed since: leave it and report it.
    Conflict,
}

/// What a rollback does with a file, from the digest of what it holds now
/// (`None` when it is missing) and the digests before and after the
/// transaction's write.
pub open spec fn rollback_step_of(current: Option<Seq<char>>, before: Seq<char>, after: Seq<char>) -> RollbackStep {
    if current == Some(before) {
        RollbackStep::Keep
    } else if current == Some(after) {
        RollbackStep::Restore
    } else {
        RollbackStep::Conflict
    }
}

/// What a rollback does with a file, as [`rollback_step_of`] says.
pub fn rollback_step(current: Option<&str>, before: &str, after: &str) -> (step: RollbackStep)
    ensures
        step == rollback_step_of(
            match current {
                Some(c) => Some(c@),
                None => None,
            },
            before@,
            after@,
        ),
{
    match current {
        Some(c) => {
            if same_text(c, before) {
                RollbackStep::Keep
            } else if same_text(c, after) {
                RollbackStep::Restore
            } else {
                RollbackStep::Conflict
            }
        },
        None => RollbackStep::Conflict,
    }
}

/// The permission bits that a journal entry records, where they are valid:
/// a number no larger than `0o7777`.
pub fn journal_mode(mode: Option<u64>) -> (valid: Option<u32>)
    ensures
        valid is Some <==> (mode is Some && mode->0 <= 0o7777),
        valid matches Some(m) ==> m == mode->0,
{
    match mode {
        Some(m) => if m <= 0o7777 {
            Some(m as u32)
        } else {
            None
        },
        None => None,
    }
}

/// Checks that a transaction replaces only a Rust source file that the
/// snapshot taken before it holds.
pub fn check_replaced_file(name: &str, in_snapshot: bool) -> (result: Result<(), String>)
    ensures
        result is Ok <==> (in_snapshot && rust_file(name@)),
        result matches Err(message) ==> message@ == "verified mode only commits existing Rust source files: "@
            + name@,
{
    if !(in_snapshot && is_rust_file(name)) {
        let mut message = String::from_str("verified mode only commits existing Rust source files: ");
        message.append(name);
        return Err(message);
    }
    Ok(())
}

/// One file of a recovery journal, as far as recovery reads it.
pub struct JournalEntry {
    /// The `path` field, where it is text.
    pub path: Option<String>,
    /// The `backup` field, where it is text.
    pub backup: Option<String>,
    /// The `before` field, where it is text.
    pub before: Option<String>,
    /// The `after` field, where it is text.
    pub after: Option<String>,
    /// The `mode` field, where it is an unsigned integer.
    pub mode: Option<u64>,
}

/// A recovery journal, as far as recovery reads it.
pub struct Journal {
    /// Whether its `phase` is `complete`.
    pub complete: bool,
    /// Its files, where its `schema` is 1 and `files` is an array.
    pub files: Option<Vec<JournalEntry>>,
}

/// Whether `e` is the journal entry that the JSON value `v` describes.
pub open spec fn reads_entry(v: JsonValue, e: JournalEntry) -> bool {
    &&& text_view(e.path) == as_text(field(v, "path"@))
    &&& text_view(e.backup) == as_text(field(v, "backup"@))
    &&& text_view(e.before) == as_text(field(v, "before"@))
    &&& text_view(e.after) == as_text(field(v, "after"@))
    &&& e.mode == as_unsigned(field(v, "mode"@))
}

/// Whether `j` is the journal that the JSON value `v` describes.
pub open spec fn reads_journal(v: JsonValue, j: Journal) -> bool {
    &&& j.complete == (as_text(field(v, "phase"@)) == Some("complete"@))
    &&& match field(v, "files"@) {
        Some(JsonValue::Array(items)) => if as_unsigned(field(v, "schema"@)) == Some(1u64) {
            j.files matches Some(files) && files@.len() == items@.len() && forall|i: int|
                0 <= i < items@.len() ==> reads_entry(#[trigger] items@[i], files@[i])
        } else {
            j.files is None
        },
        _ => j.files is None,
    }
}

/// Reads a journal entry from its JSON value.
fn entry_of(v: &JsonValue) -> (e: JournalEntry)
    ensures
        reads_entry(*v, e),
{
    JournalEntry {
        path: text_at(get(v, "path")),
        backup: text_at(get(v, "backup")),
        before: text_at(get(v, "before")),
        after: text_at(get(v, "after")),
        mode: unsigned_at(get(v, "mode")),
    }
}

/// Reads a journal from its JSON value.
pub fn journal_of(v: &JsonValue) -> (j: Journal)
    ensures
        reads_journal(*v, j),
{
    let phase = text_at(get(v, "phase"));
    let complete = match &phase {
        Some(p) => same_text(p.as_str(), "complete"),
        None => false,
    };
    proof {
        reveal_strlit("complete");
    }
    let files = match get(v, "files") {
        Some(JsonValue::Array(items)) => if unsigned_at(get(v, "schema")) == Some(1u64) {
            let mut files: Vec<JournalEntry> = Vec::new();
            let mut i: usize = 0;
            while i < items.len()
                invariant
                    i <= items@.len(),
                    files@.len() == i,
                    forall|m: int| 0 <= m < i ==> reads_entry(#[trigger] items@[m], files@[m]),
                decreases items@.len() - i,
            {
                files.push(entry_of(&items[i]));
                i = i + 1;
            }
            Some(files)
        } else {
            None
        },
        _ => None,
    };
    Journal { complete, files }
}

/// Parses a journal file's bytes and reads the journal; the parser's error
/// where they are no JSON.
pub fn read_journal(bytes: &[u8]) -> (j: Result<Journal, String>)
    ensures
        match json_of_bytes(bytes@) {
            Ok(v) => j matches Ok(journal) && reads_journal(v, journal),
            Err(e) => j matches Err(m) && m@ == e,
        },
{
    match parse_json_bytes(bytes) {
        Ok(v) => Ok(journal_of(&v)),
        Err(e) => Err(e),
    }
}


} // verus!
