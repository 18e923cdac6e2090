//! Decisions around the runs of Cargo and of the lint: the arguments that
//! start them, what their output reports back, and when a run has failed.
use vstd::prelude::*;
use vstd::string::{StrSliceExecFns, StringExecFns};

use crate::baseline::{valid_fingerprint, valid_fingerprint_text};
use crate::suggestions::{bytes_less, lemma_bytes_less_total, lemma_bytes_less_trans, text_less};
use crate::syntax::tree::same_text;
use crate::json::{
    as_signed, as_text, as_unsigned, field, get, json_of, parse_json, signed_at, text_at, text_view, unsigned_at,
    JsonValue,
};
use crate::slices::{find_first, find_in, same_bytes};
use crate::syntax::comments::slice_of;
use vstd::utf8::encode_utf8;

verus! {

/// How many characters of a run's output a message quotes, from its end.
pub const TAIL_CHARS: usize = 8000;

/// The last [`TAIL_CHARS`] characters of a text, or all of it when shorter.
pub open spec fn tail_of(text: Seq<char>) -> Seq<char> {
    if text.len() > TAIL_CHARS {
        text.subrange(text.len() - TAIL_CHARS, text.len() as int)
    } else {
        text
    }
}

/// The last [`TAIL_CHARS`] characters of a text, or all of it when shorter.
pub fn tail(text: &str) -> (part: &str)
    ensures
        part@ == tail_of(text@),
{
    let n = text.unicode_len();
    if n > TAIL_CHARS {
        text.substring_char(n - TAIL_CHARS, n)
    } else {
        text
    }
}

/// Texts joined with a separator between each two.
pub open spec fn joined(parts: Seq<Seq<char>>, separator: Seq<char>) -> Seq<char>
    decreases parts.len(),
{
    if parts.len() == 0 {
        Seq::empty()
    } else if parts.len() == 1 {
        parts[0]
    } else {
        joined(parts.drop_last(), separator) + separator + parts.last()
    }
}

/// The views of some strings.
pub open spec fn views(parts: Seq<String>) -> Seq<Seq<char>> {
    parts.map_values(|p: String| p@)
}

/// Joins strings with a separator between each two.
pub fn join(parts: &Vec<String>, separator: &str) -> (text: String)
    ensures
        text@ == joined(views(parts@), separator@),
{
    let mut text = String::new();
    let mut i: usize = 0;
    while i < parts.len()
        invariant
            i <= parts@.len(),
            text@ == joined(views(parts@).take(i as int), separator@),
        decreases parts@.len() - i,
    {
        proof {
            assert(views(parts@).take(i + 1).drop_last() =~= views(parts@).take(i as int));
            assert(views(parts@).take(i + 1).last() == parts@[i as int]@);
            if i == 0 {
                assert(views(parts@).take(0) =~= Seq::<Seq<char>>::empty());
            }
        }
        if i != 0 {
            text.append(separator);
        }
        text.append(parts[i].as_str());
        i = i + 1;
    }
    proof {
        assert(views(parts@).take(i as int) =~= views(parts@));
    }
    text
}

/// The message of a run that had to succeed and did not: the command, then
/// the tails of its error output and its output.
pub fn run_failure(args: &Vec<String>, stdout: &str, stderr: &str) -> (message: String)
    ensures
        message@ == joined(views(args@), " "@) + " failed:\n"@ + tail_of(stderr@) + "\n"@ + tail_of(
            stdout@,
        ),
{
    let mut message = join(args, " ");
    message.append(" failed:\n");
    message.append(tail(stderr));
    message.append("\n");
    message.append(tail(stdout));
    message
}

/// The message of a formatter run that failed: a formatting run or a check of
/// the candidate, then the tails of its output and its error output.
pub fn fmt_failure(write: bool, stdout: &str, stderr: &str) -> (message: String)
    ensures
        message@ == (if write {
            "initial formatting failed"@
        } else {
            "cargo fmt rejected the candidate"@
        }) + "; nothing is silently reformatted:\n"@ + tail_of(stdout@) + "\n"@ + tail_of(stderr@),
{
    let mut message = if write {
        String::from_str("initial formatting failed")
    } else {
        String::from_str("cargo fmt rejected the candidate")
    };
    message.append("; nothing is silently reformatted:\n");
    message.append(tail(stdout));
    message.append("\n");
    message.append(tail(stderr));
    message
}

/// The first two arguments of a Cargo run under the formatter toolchain: the
/// Cargo program and `+` with the toolchain's name.
pub fn formatter_cargo(cargo: &str, toolchain: Option<&str>) -> (args: Vec<String>)
    ensures
        args@.len() == 2,
        args@[0]@ == cargo@,
        args@[1]@ == "+"@ + match toolchain {
            Some(t) => t@,
            None => Seq::empty(),
        },
{
    let mut selected = String::from_str("+");
    match toolchain {
        Some(t) => selected.append(t),
        None => {},
    }
    proof {
        assert(selected@ =~= "+"@ + match toolchain {
            Some(t) => t@,
            None => Seq::empty(),
        });
    }
    let mut args: Vec<String> = Vec::new();
    args.push(String::from_str(cargo));
    args.push(selected);
    args
}

/// The lowercase hexadecimal digit of a value below sixteen, as text.
pub open spec fn hex_text(d: int) -> Seq<char> {
    if d < 10 {
        crate::patch::digit_text(d)
    } else if d == 10 {
        "a"@
    } else if d == 11 {
        "b"@
    } else if d == 12 {
        "c"@
    } else if d == 13 {
        "d"@
    } else if d == 14 {
        "e"@
    } else {
        "f"@
    }
}

/// The lowercase hexadecimal digit of a value below sixteen, as text.
fn hex_piece(d: u8) -> (piece: &'static str)
    requires
        d < 16,
    ensures
        piece@ == hex_text(d as int),
{
    match d {
        0 => "0",
        1 => "1",
        2 => "2",
        3 => "3",
        4 => "4",
        5 => "5",
        6 => "6",
        7 => "7",
        8 => "8",
        9 => "9",
        10 => "a",
        11 => "b",
        12 => "c",
        13 => "d",
        14 => "e",
        _ => "f",
    }
}

/// Bytes as lowercase hexadecimal, two digits each, high digit first.
pub open spec fn hex_of(bytes: Seq<u8>) -> Seq<char>
    decreases bytes.len(),
{
    if bytes.len() == 0 {
        Seq::empty()
    } else {
        hex_of(bytes.drop_last()) + hex_text(bytes.last() as int / 16) + hex_text(bytes.last() as int % 16)
    }
}

/// The identifier of one lint run made from random bytes: their lowercase
/// hexadecimal digits.
pub fn run_nonce(random: &[u8]) -> (nonce: String)
    ensures
        nonce@ == hex_of(random@),
{
    let mut nonce = String::new();
    let mut i: usize = 0;
    while i < random.len()
        invariant
            i <= random@.len(),
            nonce@ == hex_of(random@.take(i as int)),
        decreases random@.len() - i,
    {
        let byte = random[i];
        nonce.append(hex_piece(byte / 16));
        nonce.append(hex_piece(byte % 16));
        proof {
            assert(random@.take(i + 1).drop_last() =~= random@.take(i as int));
            assert(random@.take(i + 1).last() == byte);
        }
        i = i + 1;
    }
    proof {
        assert(random@.take(i as int) =~= random@);
    }
    nonce
}

/// Whether a text begins with a prefix.
pub open spec fn starts_with(text: Seq<char>, prefix: Seq<char>) -> bool {
    prefix.len() <= text.len() && text.subrange(0, prefix.len() as int) == prefix
}

/// Whether a text begins with a prefix.
pub fn has_prefix(text: &str, prefix: &str) -> (begins: bool)
    ensures
        begins == starts_with(text@, prefix@),
{
    let n = prefix.unicode_len();
    let m = text.unicode_len();
    if n > m {
        return false;
    }
    let mut i: usize = 0;
    while i < n
        invariant
            i <= n <= m,
            n == prefix@.len(),
            m == text@.len(),
            forall|k: int| 0 <= k < i ==> text@[k] == prefix@[k],
        decreases n - i,
    {
        if text.get_char(i) != prefix.get_char(i) {
            proof {
                assert(text@.subrange(0, n as int)[i as int] != prefix@[i as int]);
            }
            return false;
        }
        i = i + 1;
    }
    proof {
        assert(text@.subrange(0, n as int) =~= prefix@);
    }
    true
}

/// What a compiler diagnostic that is not one of this tool's contributes to
/// the errors of a run: the message of an error or failure note, unless it is
/// the compiler's closing summary.
pub open spec fn diagnostic_error(level: Option<Seq<char>>, message: Option<Seq<char>>) -> Option<
    Seq<char>,
> {
    let text = match message {
        Some(m) => m,
        None => "compiler error"@,
    };
    if level == Some("error"@) || level == Some("failure-note"@) {
        if starts_with(text, "aborting due to"@) || starts_with(text, "For more information"@) {
            None
        } else {
            Some(text)
        }
    } else {
        None
    }
}

/// What a compiler diagnostic that is not one of this tool's contributes to
/// the errors of a run: the message of an error or failure note, unless it is
/// the compiler's closing summary.
pub fn diagnostic_error_message(level: Option<&str>, message: Option<&str>) -> (error: Option<String>)
    ensures
        match error {
            Some(e) => diagnostic_error(
                match level {
                    Some(l) => Some(l@),
                    None => None,
                },
                match message {
                    Some(m) => Some(m@),
                    None => None,
                },
            ) == Some(e@),
            None => diagnostic_error(
                match level {
                    Some(l) => Some(l@),
                    None => None,
                },
                match message {
                    Some(m) => Some(m@),
                    None => None,
                },
            ) is None,
        },
{
    let failed = match level {
        Some(l) => same_text(l, "error") || same_text(l, "failure-note"),
        None => false,
    };
    if !failed {
        return None;
    }
    let text = match message {
        Some(m) => m,
        None => "compiler error",
    };
    if has_prefix(text, "aborting due to") || has_prefix(text, "For more information") {
        return None;
    }
    Some(String::from_str(text))
}

/// How many compiler errors a failure message quotes.
pub const QUOTED_ERRORS: usize = 5;

/// Refuses a lint run whose compilation produced errors of its own, quoting
/// the first [`QUOTED_ERRORS`] of them.
pub fn check_compile_errors(errors: &Vec<String>) -> (result: Result<(), String>)
    ensures
        result is Ok <==> errors@.len() == 0,
        result matches Err(message) ==> message@ == "compilation produced non-statement_spacing errors: "@
            + joined(views(errors@).take(if errors@.len() < QUOTED_ERRORS { errors@.len() as int } else { QUOTED_ERRORS as int }), "; "@),
{
    if errors.len() == 0 {
        return Ok(());
    }
    let mut quoted: Vec<String> = Vec::new();
    let mut i: usize = 0;
    while i < errors.len() && i < QUOTED_ERRORS
        invariant
            i <= errors@.len(),
            i <= QUOTED_ERRORS,
            views(quoted@) == views(errors@).take(i as int),
        decreases errors@.len() - i,
    {
        let ghost before = quoted@;
        quoted.push(errors[i].clone());
        proof {
            assert(views(quoted@) =~= views(before).push(errors@[i as int]@));
            assert(views(errors@).take(i + 1) =~= views(errors@).take(i as int).push(errors@[i as int]@));
        }
        i = i + 1;
    }
    let mut message = String::from_str("compilation produced non-statement_spacing errors: ");
    let list = join(&quoted, "; ");
    message.append(list.as_str());
    Err(message)
}

/// Whether an optional text is present and equal to an expected one.
pub open spec fn text_is(text: Option<&str>, expected: Seq<char>) -> bool {
    text is Some && text->0@ == expected
}

/// Whether an optional text is present and equal to an expected one.
fn optional_text_is(text: Option<&str>, expected: &str) -> (same: bool)
    ensures
        same == text_is(text, expected@),
{
    match text {
        Some(t) => same_text(t, expected),
        None => false,
    }
}

/// Checks that a handshake file was written by this run of this lint: schema
/// 1, the `statement_spacing` library, this tool's version and the run's nonce.
pub fn check_handshake(
    schema: Option<i64>,
    library: Option<&str>,
    version: Option<&str>,
    run_id: Option<&str>,
    expected_version: &str,
    nonce: &str,
) -> (result: Result<(), String>)
    ensures
        result is Ok <==> (schema == Some(1i64) && text_is(library, "statement_spacing"@) && text_is(
            version,
            expected_version@,
        ) && text_is(run_id, nonce@)),
        result matches Err(message) ==> message@ == "Dylint handshake identity or run nonce did not match"@,
{
    if !(schema == Some(1i64) && optional_text_is(library, "statement_spacing") && optional_text_is(
        version,
        expected_version,
    ) && optional_text_is(run_id, nonce)) {
        return Err(String::from_str("Dylint handshake identity or run nonce did not match"));
    }
    Ok(())
}

/// Whether a run that left `handshakes` handshake files, exited with `code`
/// and reported `findings` findings can be trusted, and the complaint if not:
/// no handshake means the lint did not run fresh, and a failed run must at
/// least have reported findings.
pub open spec fn lint_run_error(handshakes: nat, code: i32, findings: nat, stderr: Seq<char>) -> Option<
    Seq<char>,
> {
    if handshakes == 0 {
        Some(
            "statement_spacing did not report a fresh compiler run. Configure its Dylint metadata or pass --library-path; cached diagnostics are not accepted as verification.\n"@
                + tail_of(stderr),
        )
    } else if code != 0 && findings == 0 {
        Some("Dylint failed without actionable statement_spacing diagnostics:\n"@ + tail_of(stderr))
    } else {
        None
    }
}

/// Checks that a lint run can be trusted, as [`lint_run_error`] says.
pub fn check_lint_run(handshakes: usize, code: i32, findings: usize, stderr: &str) -> (result: Result<
    (),
    String,
>)
    ensures
        match lint_run_error(handshakes as nat, code, findings as nat, stderr@) {
            Some(e) => result matches Err(message) && message@ == e,
            None => result is Ok,
        },
{
    if handshakes == 0 {
        let mut message = String::from_str(
            "statement_spacing did not report a fresh compiler run. Configure its Dylint metadata or pass --library-path; cached diagnostics are not accepted as verification.\n",
        );
        message.append(tail(stderr));
        return Err(message);
    }
    if code != 0 && findings == 0 {
        let mut message = String::from_str("Dylint failed without actionable statement_spacing diagnostics:\n");
        message.append(tail(stderr));
        return Err(message);
    }
    Ok(())
}

/// Adds the boundaries that one handshake reports as skipped to a total: an
/// absent count adds nothing, and a count that is not a non-negative integer,
/// or a total that overflows, is refused.
pub fn add_skipped(total: u64, reported: Option<Option<u64>>) -> (sum: Result<u64, String>)
    ensures
        match sum {
            Ok(n) => match reported {
                None => n == total,
                Some(Some(k)) => n == total + k,
                Some(None) => false,
            },
            Err(message) => message@ == "invalid Dylint handshake skipped boundaries"@ && match reported {
                None => false,
                Some(Some(k)) => total + k > u64::MAX,
                Some(None) => true,
            },
        },
{
    let skipped = match reported {
        None => 0,
        Some(Some(k)) => k,
        Some(None) => {
            return Err(String::from_str("invalid Dylint handshake skipped boundaries"));
        },
    };
    match total.checked_add(skipped) {
        Some(n) => Ok(n),
        None => Err(String::from_str("invalid Dylint handshake skipped boundaries")),
    }
}

/// Whether file names paired with values are in strictly increasing byte order.
pub open spec fn keys_ordered(pairs: Seq<(String, String)>) -> bool {
    forall|i: int, j: int|
        0 <= i < j < pairs.len() ==> bytes_less(
            encode_utf8(#[trigger] pairs[i].0@),
            encode_utf8(#[trigger] pairs[j].0@),
        )
}

/// Whether some pair has the key `key`.
pub open spec fn has_key(pairs: Seq<(String, String)>, key: Seq<char>) -> bool {
    exists|i: int| 0 <= i < pairs.len() && #[trigger] pairs[i].0@ == key
}

/// Records the token fingerprint that a handshake reports for a checked file
/// in a list ordered by file name. The fingerprint must be 64 lowercase
/// hexadecimal digits, and must agree with one already recorded for the file.
pub fn record_token_hash(hashes: &mut Vec<(String, String)>, relative: &str, fingerprint: Option<&str>) -> (result:
    Result<(), String>)
    requires
        keys_ordered(old(hashes)@),
    ensures
        keys_ordered(final(hashes)@),
        !(fingerprint is Some && valid_fingerprint_text(encode_utf8(fingerprint->0@))) ==> (result matches Err(
            message,
        ) && message@ == "invalid/missing source token fingerprint for "@ + relative@ && final(hashes)@
            == old(hashes)@),
        fingerprint is Some && valid_fingerprint_text(encode_utf8(fingerprint->0@)) ==> match result {
            Ok(()) => if has_key(old(hashes)@, relative@) {
                final(hashes)@ == old(hashes)@
            } else {
                exists|p: int|
                    0 <= p <= old(hashes)@.len() && #[trigger] final(hashes)@[p].0@ == relative@
                        && final(hashes)@[p].1@ == fingerprint->0@ && final(hashes)@ == old(hashes)@.insert(p, final(hashes)@[p])
            },
            Err(message) => final(hashes)@ == old(hashes)@ && message@
                == "target-specific token fingerprints disagree for "@ + relative@ && exists|i: int|
                0 <= i < old(hashes)@.len() && #[trigger] old(hashes)@[i].0@ == relative@ && old(hashes)@[i].1@ != fingerprint->0@,
        },
        result is Ok ==> forall|i: int|
            0 <= i < final(hashes)@.len() && #[trigger] final(hashes)@[i].0@ == relative@ ==> final(hashes)@[i].1@ == fingerprint->0@,
{
    let valid = match fingerprint {
        Some(f) => valid_fingerprint(f),
        None => false,
    };
    if !valid {
        let mut message = String::from_str("invalid/missing source token fingerprint for ");
        message.append(relative);
        return Err(message);
    }
    let value = match fingerprint {
        Some(f) => f,
        None => "",
    };
    let ghost original = hashes@;
    let mut p: usize = 0;
    while p < hashes.len() && text_less(hashes[p].0.as_str(), relative)
        invariant
            p <= hashes@.len(),
            hashes@ == original,
            keys_ordered(original),
            forall|k: int| 0 <= k < p ==> bytes_less(encode_utf8(#[trigger] original[k].0@), encode_utf8(relative@)),
        decreases hashes@.len() - p,
    {
        p = p + 1;
    }
    proof {
        lemma_bytes_less_total(encode_utf8(relative@), encode_utf8(relative@));
        if p < original.len() {
            lemma_bytes_less_total(encode_utf8(original[p as int].0@), encode_utf8(relative@));
        }
    }
    let found = p < hashes.len() && same_text(hashes[p].0.as_str(), relative);
    proof {
        // No other entry can carry the key: those before sort below it, those after above.
        assert forall|i: int| 0 <= i < original.len() && i != p implies #[trigger] original[i].0@ != relative@ by {
            if i < p {
                lemma_bytes_less_total(encode_utf8(original[i].0@), encode_utf8(relative@));
            } else if p < original.len() {
                assert(bytes_less(encode_utf8(original[p as int].0@), encode_utf8(original[i].0@)));
                if original[i].0@ == relative@ {
                    if original[p as int].0@ != relative@ {
                        vstd::utf8::encode_utf8_decode_utf8(original[p as int].0@);
                        vstd::utf8::encode_utf8_decode_utf8(relative@);
                        lemma_bytes_less_total(encode_utf8(relative@), encode_utf8(original[p as int].0@));
                        lemma_bytes_less_trans(
                            encode_utf8(relative@),
                            encode_utf8(original[p as int].0@),
                            encode_utf8(relative@),
                        );
                    }
                }
            }
        }
    }
    if found {
        if !same_text(hashes[p].1.as_str(), value) {
            let mut message = String::from_str("target-specific token fingerprints disagree for ");
            message.append(relative);
            return Err(message);
        }
        return Ok(());
    }
    proof {
        if p < original.len() {
            assert(bytes_less(encode_utf8(relative@), encode_utf8(original[p as int].0@))) by {
                if encode_utf8(original[p as int].0@) == encode_utf8(relative@) {
                    vstd::utf8::encode_utf8_decode_utf8(relative@);
                    vstd::utf8::encode_utf8_decode_utf8(original[p as int].0@);
                }
            }
        }
    }
    hashes.insert(p, (String::from_str(relative), String::from_str(value)));
    proof {
        let entry = hashes@[p as int];
        assert forall|i: int, j: int| 0 <= i < j < hashes@.len() implies bytes_less(
            encode_utf8(#[trigger] hashes@[i].0@),
            encode_utf8(#[trigger] hashes@[j].0@),
        ) by {
            if j == p {
                assert(hashes@[i] == original[i]);
            } else if i == p {
                assert(hashes@[j] == original[j - 1]);
                if j - 1 > p {
                    lemma_bytes_less_trans(
                        encode_utf8(relative@),
                        encode_utf8(original[p as int].0@),
                        encode_utf8(original[j - 1].0@),
                    );
                }
            } else if j < p {
                assert(hashes@[i] == original[i] && hashes@[j] == original[j]);
            } else if i < p {
                assert(hashes@[i] == original[i] && hashes@[j] == original[j - 1]);
                if j - 1 > p {
                    lemma_bytes_less_trans(
                        encode_utf8(relative@),
                        encode_utf8(original[p as int].0@),
                        encode_utf8(original[j - 1].0@),
                    );
                }
                lemma_bytes_less_trans(
                    encode_utf8(original[i].0@),
                    encode_utf8(relative@),
                    encode_utf8(original[j - 1].0@),
                );
            } else {
                assert(hashes@[i] == original[i - 1] && hashes@[j] == original[j - 1]);
            }
        }
        assert(!has_key(original, relative@));
        assert(hashes@ == original.insert(p as int, entry));
        assert(hashes@[p as int].0@ == relative@ && hashes@[p as int].1@ == value@);
        assert(value@ == fingerprint->0@);
        assert forall|i: int| 0 <= i < hashes@.len() && #[trigger] hashes@[i].0@ == relative@ implies hashes@[i].1@
            == value@ by {
            if i < p {
                assert(hashes@[i] == original[i]);
            } else if i > p {
                assert(hashes@[i] == original[i - 1]);
            }
        }
    }
    Ok(())
}

/// Refuses edits for a file whose token fingerprint no handshake reported.
pub fn check_edit_fingerprints(edit_files: &Vec<String>, hashes: &Vec<(String, String)>) -> (result:
    Result<(), String>)
    ensures
        result is Ok <==> forall|k: int| 0 <= k < edit_files@.len() ==> has_key(hashes@, #[trigger] edit_files@[k]@),
        result matches Err(message) ==> message@ == "a suggested edit lacks a checked source token fingerprint"@,
{
    let mut k: usize = 0;
    while k < edit_files.len()
        invariant
            k <= edit_files@.len(),
            forall|m: int| 0 <= m < k ==> has_key(hashes@, #[trigger] edit_files@[m]@),
        decreases edit_files@.len() - k,
    {
        let mut i: usize = 0;
        while i < hashes.len() && !(hashes[i].0 == edit_files[k])
            invariant
                i <= hashes@.len(),
                k < edit_files@.len(),
                forall|j: int| 0 <= j < i ==> #[trigger] hashes@[j].0@ != edit_files@[k as int]@,
            decreases hashes@.len() - i,
        {
            i = i + 1;
        }
        if i == hashes.len() {
            proof {
                assert(!has_key(hashes@, edit_files@[k as int]@));
            }
            return Err(String::from_str("a suggested edit lacks a checked source token fingerprint"));
        }
        proof {
            assert(hashes@[i as int].0@ == edit_files@[k as int]@);
            assert(has_key(hashes@, edit_files@[k as int]@));
        }
        k = k + 1;
    }
    Ok(())
}

/// Which lint library a lint run loads.
pub enum LintLibrary {
    /// The libraries that the workspace's Dylint metadata names.
    Metadata,
    /// A library that was built already, by its path.
    Prebuilt(String),
    /// The source directory of the library, which Dylint builds.
    Source(String),
}

/// The arguments that select the lint library.
pub open spec fn library_args(library: LintLibrary) -> Seq<Seq<char>> {
    match library {
        LintLibrary::Metadata => seq!["--all"@],
        LintLibrary::Prebuilt(path) => seq!["--lib-path"@, path@],
        LintLibrary::Source(path) => seq!["--path"@, path@],
    }
}

/// The arguments that select Cargo features and the compilation target.
pub open spec fn selection_args(
    all_features: bool,
    no_default_features: bool,
    features: Seq<Seq<char>>,
    target: Option<Seq<char>>,
) -> Seq<Seq<char>> {
    (if all_features {
        seq!["--all-features"@]
    } else {
        Seq::empty()
    }) + (if no_default_features {
        seq!["--no-default-features"@]
    } else {
        Seq::empty()
    }) + (if features.len() > 0 {
        seq!["--features"@, joined(features, ","@)]
    } else {
        Seq::empty()
    }) + match target {
        Some(t) => seq!["--target"@, t],
        None => Seq::empty(),
    }
}

/// The arguments of a lint run: Dylint on the whole workspace, all targets,
/// locked, with JSON messages, and the Cargo feature and target selection.
pub open spec fn lint_args(
    cargo: Seq<char>,
    library: LintLibrary,
    manifest: Seq<char>,
    all_features: bool,
    no_default_features: bool,
    features: Seq<Seq<char>>,
    target: Option<Seq<char>>,
) -> Seq<Seq<char>> {
    seq![cargo, "dylint"@] + library_args(library) + seq![
        "--workspace"@,
        "--"@,
        "--all-targets"@,
        "--locked"@,
        "--message-format=json"@,
        "--manifest-path"@,
        manifest,
    ] + selection_args(all_features, no_default_features, features, target)
}

/// Appends an argument.
fn push_arg(args: &mut Vec<String>, arg: &str)
    ensures
        views(final(args)@) == views(old(args)@).push(arg@),
{
    args.push(String::from_str(arg));
    proof {
        assert(views(final(args)@) =~= views(old(args)@).push(arg@));
    }
}

/// Appends the arguments that select the lint library.
fn push_library_args(args: &mut Vec<String>, library: &LintLibrary)
    ensures
        views(final(args)@) == views(old(args)@) + library_args(*library),
{
    match library {
        LintLibrary::Metadata => push_arg(args, "--all"),
        LintLibrary::Prebuilt(path) => {
            push_arg(args, "--lib-path");
            push_arg(args, path.as_str());
        },
        LintLibrary::Source(path) => {
            push_arg(args, "--path");
            push_arg(args, path.as_str());
        },
    }
    proof {
        assert(views(final(args)@) =~= views(old(args)@) + library_args(*library));
    }
}

/// Appends the arguments that select Cargo features and the target.
fn push_selection_args(
    args: &mut Vec<String>,
    all_features: bool,
    no_default_features: bool,
    features: &Vec<String>,
    target: Option<&str>,
)
    ensures
        views(final(args)@) == views(old(args)@) + selection_args(
            all_features,
            no_default_features,
            views(features@),
            match target {
                Some(t) => Some(t@),
                None => None,
            },
        ),
{
    let ghost start = views(args@);
    if all_features {
        push_arg(args, "--all-features");
    }
    let ghost a = views(args@);
    if no_default_features {
        push_arg(args, "--no-default-features");
    }
    let ghost b = views(args@);
    if features.len() > 0 {
        push_arg(args, "--features");
        let list = join(features, ",");
        push_arg(args, list.as_str());
    }
    let ghost c = views(args@);
    match target {
        Some(t) => {
            push_arg(args, "--target");
            push_arg(args, t);
        },
        None => {},
    }
    proof {
        let sa: Seq<Seq<char>> = if all_features {
            seq!["--all-features"@]
        } else {
            Seq::empty()
        };
        let sb: Seq<Seq<char>> = if no_default_features {
            seq!["--no-default-features"@]
        } else {
            Seq::empty()
        };
        let sc: Seq<Seq<char>> = if features@.len() > 0 {
            seq!["--features"@, joined(views(features@), ","@)]
        } else {
            Seq::empty()
        };
        let sd: Seq<Seq<char>> = match target {
            Some(t) => seq!["--target"@, t@],
            None => Seq::empty(),
        };
        assert(a =~= start + sa);
        assert(b =~= a + sb);
        assert(c =~= b + sc);
        assert(views(args@) =~= c + sd);
        assert(views(args@) =~= start + (sa + sb + sc + sd));
    }
}

/// The arguments of a lint run, as [`lint_args`] says.
pub fn dylint_args(
    cargo: &str,
    library: &LintLibrary,
    manifest: &str,
    all_features: bool,
    no_default_features: bool,
    features: &Vec<String>,
    target: Option<&str>,
) -> (args: Vec<String>)
    ensures
        views(args@) == lint_args(
            cargo@,
            *library,
            manifest@,
            all_features,
            no_default_features,
            views(features@),
            match target {
                Some(t) => Some(t@),
                None => None,
            },
        ),
{
    let mut args: Vec<String> = Vec::new();
    push_arg(&mut args, cargo);
    push_arg(&mut args, "dylint");
    let ghost head = views(args@);
    push_library_args(&mut args, library);
    let ghost with_library = views(args@);
    push_arg(&mut args, "--workspace");
    push_arg(&mut args, "--");
    push_arg(&mut args, "--all-targets");
    push_arg(&mut args, "--locked");
    push_arg(&mut args, "--message-format=json");
    push_arg(&mut args, "--manifest-path");
    push_arg(&mut args, manifest);
    let ghost fixed = views(args@);
    push_selection_args(&mut args, all_features, no_default_features, features, target);
    proof {
        assert(head =~= seq![cargo@, "dylint"@]);
        assert(fixed =~= with_library + seq![
            "--workspace"@,
            "--"@,
            "--all-targets"@,
            "--locked"@,
            "--message-format=json"@,
            "--manifest-path"@,
            manifest@,
        ]);
    }
    args
}

/// The offset of the first separator at or after `k`, or the length of the text.
pub open spec fn separator_from(text: Seq<char>, sep: char, k: int) -> int
    decreases text.len() - k,
{
    if k < 0 || k >= text.len() {
        text.len() as int
    } else if text[k] == sep {
        k
    } else {
        separator_from(text, sep, k + 1)
    }
}

/// The pieces of `text[k..]` between separators, empty ones included.
pub open spec fn split_from(text: Seq<char>, sep: char, k: int) -> Seq<Seq<char>>
    decreases text.len() - k + 1,
{
    let e = separator_from(text, sep, k);
    if k < 0 || k > text.len() || e < k || e >= text.len() {
        seq![text.subrange(k, text.len() as int)]
    } else {
        seq![text.subrange(k, e)] + split_from(text, sep, e + 1)
    }
}

/// The first separator from `k` on lies at or after `k`, at a separator.
proof fn lemma_separator_from(text: Seq<char>, sep: char, k: int)
    requires
        0 <= k <= text.len(),
    ensures
        k <= separator_from(text, sep, k) <= text.len(),
        separator_from(text, sep, k) < text.len() ==> text[separator_from(text, sep, k)] == sep,
        forall|j: int| k <= j < separator_from(text, sep, k) ==> text[j] != sep,
    decreases text.len() - k,
{
    if k < text.len() && text[k] != sep {
        lemma_separator_from(text, sep, k + 1);
    }
}

/// Splits a text at its commas, keeping empty pieces.
pub fn split_commas(text: &str) -> (pieces: Vec<String>)
    ensures
        views(pieces@) == split_from(text@, ',', 0),
{
    split_text(text, ',')
}

/// Splits a text at a separator, keeping empty pieces.
pub fn split_text(text: &str, sep: char) -> (pieces: Vec<String>)
    ensures
        views(pieces@) == split_from(text@, sep, 0),
{
    let n = text.unicode_len();
    let mut pieces: Vec<String> = Vec::new();
    let mut k: usize = 0;
    proof {
        assert(views(pieces@) + split_from(text@, sep, 0) =~= split_from(text@, sep, 0));
    }
    loop
        invariant
            k <= n,
            n == text@.len(),
            views(pieces@) + split_from(text@, sep, k as int) == split_from(text@, sep, 0),
        decreases n - k,
    {
        let mut e = k;
        while e < n && text.get_char(e) != sep
            invariant
                k <= e <= n,
                n == text@.len(),
                separator_from(text@, sep, k as int) == separator_from(text@, sep, e as int),
            decreases n - e,
        {
            e = e + 1;
        }
        proof {
            lemma_separator_from(text@, sep, k as int);
        }
        let ghost before = views(pieces@);
        pieces.push(String::from_str(text.substring_char(k, e)));
        proof {
            assert(views(pieces@) =~= before.push(text@.subrange(k as int, e as int)));
        }
        if e == n {
            proof {
                assert(split_from(text@, sep, k as int) =~= seq![text@.subrange(k as int, n as int)]);
                assert(views(pieces@) =~= before + split_from(text@, sep, k as int));
            }
            return pieces;
        }
        proof {
            assert(split_from(text@, sep, k as int) =~= seq![text@.subrange(k as int, e as int)] + split_from(text@, sep, e + 1));
            assert(views(pieces@) + split_from(text@, sep, e + 1) =~= before + split_from(text@, sep, k as int));
        }
        k = e + 1;
    }
}

/// The pieces between commas of several texts, in order.
pub open spec fn all_pieces(values: Seq<Seq<char>>) -> Seq<Seq<char>>
    decreases values.len(),
{
    if values.len() == 0 {
        Seq::empty()
    } else {
        all_pieces(values.drop_last()) + split_from(values.last(), ',', 0)
    }
}

/// Whether texts are in strictly increasing byte order.
pub open spec fn texts_ordered(texts: Seq<Seq<char>>) -> bool {
    forall|i: int, j: int|
        0 <= i < j < texts.len() ==> bytes_less(encode_utf8(#[trigger] texts[i]), encode_utf8(#[trigger] texts[j]))
}

/// The Cargo features of a check, as the coverage of a report and a baseline
/// lists them: every comma-separated piece of the given values, each once, in
/// byte order.
pub fn normalized_features(values: &Vec<String>) -> (features: Vec<String>)
    ensures
        texts_ordered(views(features@)),
        forall|i: int| 0 <= i < features@.len() ==> all_pieces(views(values@)).contains(#[trigger] features@[i]@),
        forall|k: int| 0 <= k < all_pieces(views(values@)).len() ==> views(features@).contains(
            #[trigger] all_pieces(views(values@))[k],
        ),
{
    let mut pieces: Vec<String> = Vec::new();
    let mut v: usize = 0;
    while v < values.len()
        invariant
            v <= values@.len(),
            views(pieces@) == all_pieces(views(values@).take(v as int)),
        decreases values@.len() - v,
    {
        let split = split_commas(values[v].as_str());
        let ghost before = views(pieces@);
        let mut j: usize = 0;
        while j < split.len()
            invariant
                j <= split@.len(),
                views(pieces@) == before + views(split@).take(j as int),
            decreases split@.len() - j,
        {
            let ghost mid = views(pieces@);
            pieces.push(split[j].clone());
            proof {
                assert(views(pieces@) =~= mid.push(split@[j as int]@));
                assert(views(split@).take(j + 1) =~= views(split@).take(j as int).push(split@[j as int]@));
            }
            j = j + 1;
        }
        proof {
            assert(views(split@).take(j as int) =~= views(split@));
            assert(views(values@).take(v + 1).drop_last() =~= views(values@).take(v as int));
            assert(views(values@).take(v + 1).last() == values@[v as int]@);
        }
        v = v + 1;
    }
    proof {
        assert(views(values@).take(v as int) =~= views(values@));
    }
    let counts = crate::baseline::tally(&pieces);
    let mut features: Vec<String> = Vec::new();
    let mut i: usize = 0;
    while i < counts.len()
        invariant
            i <= counts@.len(),
            views(features@) == counts@.take(i as int).map_values(|c: (String, usize)| c.0@),
        decreases counts@.len() - i,
    {
        let ghost before = views(features@);
        features.push(counts[i].0.clone());
        proof {
            assert(views(features@) =~= before.push(counts@[i as int].0@));
            assert(counts@.take(i + 1).map_values(|c: (String, usize)| c.0@) =~= counts@.take(
                i as int,
            ).map_values(|c: (String, usize)| c.0@).push(counts@[i as int].0@));
        }
        i = i + 1;
    }
    proof {
        let all = all_pieces(views(values@));
        assert(views(features@) =~= counts@.map_values(|c: (String, usize)| c.0@));
        assert(features@.len() == counts@.len()) by {
            assert(views(features@).len() == features@.len());
        }
        assert(crate::baseline::texts(pieces@) =~= all);
        assert forall|a: int, b: int| 0 <= a < b < features@.len() implies bytes_less(
            encode_utf8(#[trigger] views(features@)[a]),
            encode_utf8(#[trigger] views(features@)[b]),
        ) by {
            assert(views(features@)[a] == counts@[a].0@);
            assert(views(features@)[b] == counts@[b].0@);
        }
        assert forall|x: int| 0 <= x < features@.len() implies all.contains(#[trigger] features@[x]@) by {
            assert(views(features@)[x] == features@[x]@);
            assert(features@[x]@ == counts@[x].0@);
            assert(counts@[x].1 > 0);
            crate::baseline::lemma_occurs(all, counts@[x].0@);
        }
        assert forall|k: int| 0 <= k < all.len() implies views(features@).contains(#[trigger] all[k]) by {
            assert(pieces@[k]@ == all[k]);
            assert(crate::baseline::listed(counts@, pieces@[k]@));
            let x = choose|x: int| 0 <= x < counts@.len() && #[trigger] counts@[x].0@ == pieces@[k]@;
            assert(views(features@)[x] == all[k]);
        }
    }
    features
}

/// Whether two lists of strings hold the same texts.
pub fn same_texts(a: &Vec<String>, b: &Vec<String>) -> (same: bool)
    ensures
        same == (views(a@) == views(b@)),
{
    if a.len() != b.len() {
        proof {
            assert(views(a@).len() != views(b@).len());
        }
        return false;
    }
    let mut i: usize = 0;
    while i < a.len()
        invariant
            i <= a@.len(),
            a@.len() == b@.len(),
            forall|k: int| 0 <= k < i ==> a@[k]@ == #[trigger] b@[k]@,
        decreases a@.len() - i,
    {
        if !(a[i] == b[i]) {
            proof {
                assert(views(a@)[i as int] != views(b@)[i as int]);
            }
            return false;
        }
        i = i + 1;
    }
    proof {
        assert(views(a@) =~= views(b@));
    }
    true
}

/// The texts of file names paired with values.
pub open spec fn pair_views(pairs: Seq<(String, String)>) -> Seq<(Seq<char>, Seq<char>)> {
    pairs.map_values(|p: (String, String)| (p.0@, p.1@))
}

/// Whether two lists of pairs of strings hold the same texts.
pub fn same_pairs(a: &Vec<(String, String)>, b: &Vec<(String, String)>) -> (same: bool)
    ensures
        same == (pair_views(a@) == pair_views(b@)),
{
    if a.len() != b.len() {
        proof {
            assert(pair_views(a@).len() != pair_views(b@).len());
        }
        return false;
    }
    let mut i: usize = 0;
    while i < a.len()
        invariant
            i <= a@.len(),
            a@.len() == b@.len(),
            forall|k: int| 0 <= k < i ==> pair_views(a@)[k] == #[trigger] pair_views(b@)[k],
        decreases a@.len() - i,
    {
        if !(a[i].0 == b[i].0 && a[i].1 == b[i].1) {
            proof {
                assert(pair_views(a@)[i as int] != pair_views(b@)[i as int]);
            }
            return false;
        }
        i = i + 1;
    }
    proof {
        assert(pair_views(a@) =~= pair_views(b@));
    }
    true
}

/// Checks that the lint run on a fixed candidate confirms it: no finding and
/// no edit is left, the compiler checked the same files as on the original,
/// and every checked file keeps its code, comment and literal tokens.
pub fn check_candidate(
    findings: usize,
    edits: usize,
    original_files: &Vec<String>,
    candidate_files: &Vec<String>,
    original_hashes: &Vec<(String, String)>,
    candidate_hashes: &Vec<(String, String)>,
) -> (result: Result<(), String>)
    ensures
        findings != 0 || edits != 0 ==> (result matches Err(message) && message@
            == "candidate is not a lint fixed point; the complete transaction was rejected"@),
        findings == 0 && edits == 0 && views(original_files@) != views(candidate_files@) ==> (
        result matches Err(message) && message@
            == "compiler coverage changed between the original and candidate runs"@),
        findings == 0 && edits == 0 && views(original_files@) == views(candidate_files@) && pair_views(
            original_hashes@,
        ) != pair_views(candidate_hashes@) ==> (result matches Err(message) && message@
            == "candidate changed code/comment/literal tokens; transaction rejected"@),
        result is Ok <==> (findings == 0 && edits == 0 && views(original_files@) == views(
            candidate_files@,
        ) && pair_views(original_hashes@) == pair_views(candidate_hashes@)),
{
    if findings != 0 || edits != 0 {
        return Err(String::from_str("candidate is not a lint fixed point; the complete transaction was rejected"));
    }
    if !same_texts(original_files, candidate_files) {
        return Err(String::from_str("compiler coverage changed between the original and candidate runs"));
    }
    if !same_pairs(original_hashes, candidate_hashes) {
        return Err(String::from_str("candidate changed code/comment/literal tokens; transaction rejected"));
    }
    Ok(())
}

/// Whether `text` ends with `suffix`.
pub open spec fn ends_with(text: Seq<u8>, suffix: Seq<u8>) -> bool {
    suffix.len() <= text.len() && text.subrange(text.len() - suffix.len(), text.len() as int) == suffix
}

/// Whether a file name is that of a built copy of the lint library: it holds
/// `statement_spacing@` and ends in `.so`, `.dylib` or `.dll`.
pub open spec fn lint_library_name(name: Seq<u8>) -> bool {
    &&& find_first(name, encode_utf8("statement_spacing@"@)) is Some
    &&& (ends_with(name, encode_utf8(".so"@)) || ends_with(name, encode_utf8(".dylib"@)) || ends_with(
        name,
        encode_utf8(".dll"@),
    ))
}

/// Whether `text` ends with `suffix`.
fn has_suffix(text: &[u8], suffix: &[u8]) -> (ends: bool)
    ensures
        ends == ends_with(text@, suffix@),
{
    if suffix.len() > text.len() {
        return false;
    }
    same_bytes(slice_of(text, text.len() - suffix.len(), text.len()), suffix)
}

/// Whether a file name is that of a built copy of the lint library.
pub fn is_lint_library_name(name: &str) -> (found: bool)
    ensures
        found == lint_library_name(encode_utf8(name@)),
{
    let bytes = name.as_bytes();
    proof {
        assert(bytes@.subrange(0, bytes@.len() as int) =~= bytes@);
    }
    let marked = find_in(bytes, 0, bytes.len(), "statement_spacing@".as_bytes()).is_some();
    marked && (has_suffix(bytes, ".so".as_bytes()) || has_suffix(bytes, ".dylib".as_bytes()) || has_suffix(
        bytes,
        ".dll".as_bytes(),
    ))
}


/// Text with universal newlines: each CRLF pair becomes a line feed, and so does
/// each lone carriage return.
pub open spec fn universal_newlines(bytes: Seq<u8>) -> Seq<u8>
    decreases bytes.len(),
{
    if bytes.len() == 0 {
        Seq::empty()
    } else if bytes[0] == 13 && bytes.len() >= 2 && bytes[1] == 10 {
        seq![10u8] + universal_newlines(bytes.subrange(2, bytes.len() as int))
    } else if bytes[0] == 13 {
        seq![10u8] + universal_newlines(bytes.subrange(1, bytes.len() as int))
    } else {
        seq![bytes[0]] + universal_newlines(bytes.subrange(1, bytes.len() as int))
    }
}

/// Converts the line endings of decoded process output to line feeds.
pub fn with_universal_newlines(text: &str) -> (converted: String)
    ensures
        encode_utf8(converted@) == universal_newlines(encode_utf8(text@)),
{
    let ghost bytes = encode_utf8(text@);
    let b = text.as_bytes();
    let length = b.len();
    let mut out = String::new();
    let mut segment: usize = 0;
    let mut i: usize = 0;
    proof {
        vstd::utf8::encode_utf8_valid_utf8(text@);
        vstd::utf8::is_char_boundary_start_end_of_seq(bytes);
        crate::syntax::comments::lemma_comment_patterns();
        assert(encode_utf8(out@) =~= Seq::<u8>::empty());
        assert(bytes.subrange(0, 0) =~= Seq::<u8>::empty());
        assert(bytes.subrange(0, length as int) =~= bytes);
    }
    while i < length
        invariant
            b@ == bytes,
            bytes == encode_utf8(text@),
            length == bytes.len(),
            vstd::utf8::valid_utf8(bytes),
            segment <= i <= length,
            vstd::utf8::is_char_boundary(bytes, segment as int),
            encode_utf8("\n"@) == seq![10u8],
            encode_utf8(out@) + bytes.subrange(segment as int, i as int) + universal_newlines(
                bytes.subrange(i as int, length as int),
            ) == universal_newlines(bytes),
        decreases length - i,
    {
        let ghost rest = bytes.subrange(i as int, length as int);
        let ghost before = encode_utf8(out@) + bytes.subrange(segment as int, i as int);
        proof {
            assert(rest[0] == bytes[i as int]);
            assert(rest.subrange(1, rest.len() as int) =~= bytes.subrange(i + 1, length as int));
        }
        if b[i] == 13 {
            proof {
                crate::text::lemma_ascii_split(bytes, i as int);
            }
            let piece = crate::slices::substring(text, segment, i);
            crate::slices::push_text(&mut out, piece);
            if i + 1 < length && b[i + 1] == 10 {
                proof {
                    let next = bytes.subrange(i + 1, length as int);
                    assert(rest[1] == 10u8);
                    assert(rest.subrange(2, rest.len() as int) =~= next.subrange(1, next.len() as int));
                    assert(next[0] == 10u8);
                    assert(universal_newlines(next) == seq![10u8] + universal_newlines(
                        next.subrange(1, next.len() as int),
                    ));
                    assert(encode_utf8(out@) == before);
                    assert(bytes.subrange(i + 1, i + 1) =~= Seq::<u8>::empty());
                    assert(encode_utf8(out@) + bytes.subrange(i + 1, i + 1) =~= before);
                }
            } else {
                crate::slices::push_text(&mut out, "\n");
                proof {
                    assert(encode_utf8(out@) == before + seq![10u8]);
                    assert(bytes.subrange(i + 1, i + 1) =~= Seq::<u8>::empty());
                    assert(encode_utf8(out@) + bytes.subrange(i + 1, i + 1) =~= before + seq![10u8]);
                }
            }
            segment = i + 1;
        } else {
            proof {
                assert(bytes.subrange(segment as int, i as int) + seq![bytes[i as int]] =~= bytes.subrange(
                    segment as int,
                    i + 1,
                ));
                assert(before + seq![bytes[i as int]] =~= encode_utf8(out@) + bytes.subrange(
                    segment as int,
                    i + 1,
                ));
            }
        }
        i = i + 1;
    }
    proof {
        assert(bytes.subrange(length as int, length as int) =~= Seq::<u8>::empty());
        vstd::utf8::is_char_boundary_start_end_of_seq(bytes);
    }
    let piece = crate::slices::substring(text, segment, length);
    crate::slices::push_text(&mut out, piece);
    proof {
        assert(encode_utf8(out@) =~= universal_newlines(bytes));
    }
    out
}


/// A lint library's handshake, as far as a run reads it.
pub struct Handshake {
    /// The `schema` field, where it is an integer fitting in `i64`.
    pub schema: Option<i64>,
    /// The `library` field, where it is text.
    pub library: Option<String>,
    /// The `version` field, where it is text.
    pub version: Option<String>,
    /// The `run_id` field, where it is text.
    pub run_id: Option<String>,
    /// The files that it checked, in order, each with its token fingerprint
    /// where that is text, up to the first that cannot be read.
    pub files: Vec<(String, Option<String>)>,
    /// Why the files could not be read further, if so.
    pub files_error: Option<String>,
    /// The `skipped_boundaries` field, where present: its value where it is an
    /// unsigned integer.
    pub skipped: Option<Option<u64>>,
}

/// Whether an optional message is `message`.
pub open spec fn message_is(error: Option<String>, message: Seq<char>) -> bool {
    error matches Some(e) && e@ == message
}

/// Whether `files` and `error` are what the `files` array of a handshake gives
/// with the fingerprint table `hashes`: each leading text with the fingerprint
/// that the table holds for it as text, then, at the first element that is not
/// text, the error about that source path.
pub open spec fn reads_files(
    hashes: JsonValue,
    names: Seq<JsonValue>,
    files: Seq<(String, Option<String>)>,
    error: Option<String>,
) -> bool {
    &&& files.len() <= names.len()
    &&& forall|m: int|
        0 <= m < files.len() ==> (#[trigger] names[m] matches JsonValue::Text(name) && files[m].0@ == name@
            && text_view(files[m].1) == as_text(field(hashes, name@)))
    &&& if files.len() < names.len() {
        !(names[files.len() as int] is Text) && message_is(error, "invalid Dylint handshake source path"@)
    } else {
        error is None
    }
}

/// Whether `h` is the handshake that the JSON value `v` describes. The files
/// need the `token_hashes` object, and then a `files` array where that field is
/// present.
pub open spec fn reads_handshake(v: JsonValue, h: Handshake) -> bool {
    &&& h.schema == as_signed(field(v, "schema"@))
    &&& text_view(h.library) == as_text(field(v, "library"@))
    &&& text_view(h.version) == as_text(field(v, "version"@))
    &&& text_view(h.run_id) == as_text(field(v, "run_id"@))
    &&& match field(v, "token_hashes"@) {
        Some(hashes) => if hashes is Object {
            match field(v, "files"@) {
                None => h.files@.len() == 0 && h.files_error is None,
                Some(JsonValue::Array(names)) => reads_files(hashes, names@, h.files@, h.files_error),
                Some(_) => h.files@.len() == 0 && message_is(h.files_error, "invalid Dylint handshake files"@),
            }
        } else {
            h.files@.len() == 0 && message_is(
                h.files_error,
                "Dylint handshake lacks source token fingerprints"@,
            )
        },
        None => h.files@.len() == 0 && message_is(
            h.files_error,
            "Dylint handshake lacks source token fingerprints"@,
        ),
    }
    &&& h.skipped == match field(v, "skipped_boundaries"@) {
        Some(x) => Some(as_unsigned(Some(x))),
        None => None,
    }
}

/// Reads the files of a handshake from its `files` array and fingerprint table.
fn files_of(hashes: &JsonValue, names: &Vec<JsonValue>) -> (read: (Vec<(String, Option<String>)>, Option<String>))
    ensures
        reads_files(*hashes, names@, read.0@, read.1),
{
    let mut files: Vec<(String, Option<String>)> = Vec::new();
    let mut i: usize = 0;
    while i < names.len()
        invariant
            i <= names@.len(),
            files@.len() == i,
            forall|m: int|
                0 <= m < i ==> (#[trigger] names@[m] matches JsonValue::Text(name) && files@[m].0@ == name@
                    && text_view(files@[m].1) == as_text(field(*hashes, name@))),
        decreases names@.len() - i,
    {
        match &names[i] {
            JsonValue::Text(name) => {
                let fingerprint = text_at(get(hashes, name.as_str()));
                files.push((String::from_str(name.as_str()), fingerprint));
            },
            _ => {
                return (files, Some(String::from_str("invalid Dylint handshake source path")));
            },
        }
        i = i + 1;
    }
    (files, None)
}

/// Reads a handshake from its JSON value.
pub fn handshake_of(v: &JsonValue) -> (h: Handshake)
    ensures
        reads_handshake(*v, h),
{
    let (files, files_error) = match get(v, "token_hashes") {
        Some(hashes) => match hashes {
            JsonValue::Object(_) => match get(v, "files") {
                None => (Vec::new(), None),
                Some(JsonValue::Array(names)) => files_of(hashes, names),
                Some(_) => (Vec::new(), Some(String::from_str("invalid Dylint handshake files"))),
            },
            _ => (Vec::new(), Some(String::from_str("Dylint handshake lacks source token fingerprints"))),
        },
        None => (Vec::new(), Some(String::from_str("Dylint handshake lacks source token fingerprints"))),
    };
    let skipped = match get(v, "skipped_boundaries") {
        Some(x) => Some(unsigned_at(Some(x))),
        None => None,
    };
    Handshake {
        schema: signed_at(get(v, "schema")),
        library: text_at(get(v, "library")),
        version: text_at(get(v, "version")),
        run_id: text_at(get(v, "run_id")),
        files,
        files_error,
        skipped,
    }
}

/// Parses a handshake file's text and reads the handshake; the parser's error
/// where the text is no JSON.
pub fn read_handshake(text: &str) -> (h: Result<Handshake, String>)
    ensures
        match json_of(text@) {
            Ok(v) => h matches Ok(hs) && reads_handshake(v, hs),
            Err(e) => h matches Err(m) && m@ == e,
        },
{
    match parse_json(text) {
        Ok(v) => Ok(handshake_of(&v)),
        Err(e) => Err(e),
    }
}


/// The text that lossy UTF-8 decoding gives for some bytes.
pub uninterp spec fn lossy_text(bytes: Seq<u8>) -> Seq<char>;

/// Calls `String::from_utf8_lossy`, which decodes valid UTF-8 as it is and
/// replaces each invalid sequence with U+FFFD; the contract names the result
/// and states that valid UTF-8 decodes to the text it encodes.
#[verifier::external_body]
fn lossy_decode(bytes: &[u8]) -> (text: String)
    ensures
        text@ == lossy_text(bytes@),
        vstd::utf8::valid_utf8(bytes@) ==> encode_utf8(text@) == bytes@,
{
    String::from_utf8_lossy(bytes).into_owned()
}

/// Process output as text: decoded lossily, with universal newlines.
pub fn decoded(bytes: &[u8]) -> (text: String)
    ensures
        encode_utf8(text@) == universal_newlines(encode_utf8(lossy_text(bytes@))),
{
    let lossy = lossy_decode(bytes);
    with_universal_newlines(lossy.as_str())
}


/// The root manifest that `cargo locate-project` reports: the `root` field of
/// its JSON output, where that parses and the field is text.
pub fn project_root(output: &str) -> (root: Option<String>)
    ensures
        text_view(root) == match json_of(output@) {
            Ok(v) => as_text(field(v, "root"@)),
            Err(_) => None,
        },
{
    match parse_json(output) {
        Ok(v) => text_at(get(&v, "root")),
        Err(_) => None,
    }
}


} // verus!
