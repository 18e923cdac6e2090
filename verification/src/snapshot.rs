//! Snapshots of a workspace: the state of each file by name, the digest that
//! identifies a whole snapshot in reports, and what a validation run changed.
use vstd::prelude::*;
use vstd::string::StringExecFns;
use vstd::utf8::encode_utf8;

use crate::baseline::{digest, sha256_hex};
use crate::suggestions::{bytes_less, text_less};
use crate::syntax::tree::same_text;

verus! {

/// What a snapshot records of one file.
pub struct FileState {
    /// The SHA-256 digest of the contents, as lowercase hexadecimal digits.
    pub digest: String,
    /// The permission bits.
    pub mode: u32,
    /// The length in bytes.
    pub size: u64,
}

/// Whether two file states agree in every field.
pub open spec fn same_state(a: FileState, b: FileState) -> bool {
    a.digest@ == b.digest@ && a.mode == b.mode && a.size == b.size
}

/// Whether two file states agree in every field.
pub fn states_equal(a: &FileState, b: &FileState) -> (same: bool)
    ensures
        same == same_state(*a, *b),
{
    same_text(a.digest.as_str(), b.digest.as_str()) && a.mode == b.mode && a.size == b.size
}

/// A lowercase hexadecimal digit.
pub open spec fn lower_hex_char(d: int) -> char {
    if d < 10 {
        (48 + d) as char
    } else {
        (87 + d) as char
    }
}

/// How JSON writes a character inside a string literal: quote and backslash
/// behind a backslash, the short escapes of backspace, form feed, line feed,
/// carriage return and tab, `\u00XX` with lowercase digits for the other control
/// characters below U+0020, and every other character as itself.
pub open spec fn json_char(c: char) -> Seq<char> {
    if c == '"' {
        seq!['\\', '"']
    } else if c == '\\' {
        seq!['\\', '\\']
    } else if c == '\u{8}' {
        seq!['\\', 'b']
    } else if c == '\u{c}' {
        seq!['\\', 'f']
    } else if c == '\n' {
        seq!['\\', 'n']
    } else if c == '\r' {
        seq!['\\', 'r']
    } else if c == '\t' {
        seq!['\\', 't']
    } else if (c as u32) < 0x20 {
        seq!['\\', 'u', '0', '0', lower_hex_char((c as int) / 16), lower_hex_char((c as int) % 16)]
    } else {
        seq![c]
    }
}

/// The characters of a text as JSON writes them inside a string literal.
pub open spec fn json_escaped(text: Seq<char>) -> Seq<char>
    decreases text.len(),
{
    if text.len() == 0 {
        Seq::empty()
    } else {
        json_escaped(text.drop_last()) + json_char(text.last())
    }
}

/// The JSON string literal of a text: its escaped characters in double quotes.
pub open spec fn json_string(text: Seq<char>) -> Seq<char> {
    seq!['"'] + json_escaped(text) + seq!['"']
}

/// What serde_json gives for a text: always its JSON string literal.
pub open spec fn json_quoted(text: Seq<char>) -> Result<Seq<char>, Seq<char>> {
    Ok(json_string(text))
}

/// Calls `serde_json::to_string` on a text. Serializing a `str` into a `Vec`
/// cannot fail, and serde_json writes it as a string literal in double quotes,
/// escaping as [`json_char`] says, so the contract states that literal.
#[verifier::external_body]
pub(crate) fn quote_json(text: &str) -> (quoted: Result<String, String>)
    ensures
        quoted is Ok,
        quoted matches Ok(q) ==> q@ == json_string(text@),
{
    serde_json::to_string(text).map_err(|error| error.to_string())
}

/// The lowercase hexadecimal digit of a value below sixteen.
pub open spec fn hex_digit(d: int) -> u8 {
    if d < 10 {
        (48 + d) as u8
    } else {
        (87 + d) as u8
    }
}

/// The escape `\uXXXX` of a UTF-16 code unit, with four lowercase digits.
pub open spec fn unit_escape(unit: int) -> Seq<u8> {
    seq![
        92u8,
        117u8,
        hex_digit(unit / 4096 % 16),
        hex_digit(unit / 256 % 16),
        hex_digit(unit / 16 % 16),
        hex_digit(unit % 16),
    ]
}

/// A character as ASCII: itself where it is ASCII, else the escapes of its
/// UTF-16 code units.
pub open spec fn char_escape(c: char) -> Seq<u8> {
    let n = c as int;
    if n < 128 {
        seq![n as u8]
    } else if n < 0x10000 {
        unit_escape(n)
    } else {
        unit_escape(0xD800 + (n - 0x10000) / 1024) + unit_escape(0xDC00 + (n - 0x10000) % 1024)
    }
}

/// A text as ASCII, each character escaped as [`char_escape`] says.
pub open spec fn ascii_escape(text: Seq<char>) -> Seq<u8>
    decreases text.len(),
{
    if text.len() == 0 {
        Seq::empty()
    } else {
        ascii_escape(text.drop_last()) + char_escape(text.last())
    }
}

/// Appends the escape of a UTF-16 code unit.
fn push_unit_escape(out: &mut Vec<u8>, unit: u32)
    requires
        unit < 0x10000,
    ensures
        final(out)@ == old(out)@ + unit_escape(unit as int),
{
    let digits: [u8; 4] = [
        (unit / 4096 % 16) as u8,
        (unit / 256 % 16) as u8,
        (unit / 16 % 16) as u8,
        (unit % 16) as u8,
    ];
    out.push(92);
    out.push(117);
    let mut i: usize = 0;
    let ghost start = out@;
    while i < 4
        invariant
            i <= 4,
            unit < 0x10000,
            digits@ == seq![
                (unit / 4096 % 16) as u8,
                (unit / 256 % 16) as u8,
                (unit / 16 % 16) as u8,
                (unit % 16) as u8,
            ],
            out@ == start + unit_escape(unit as int).subrange(2, 2 + i as int),
        decreases 4 - i,
    {
        let d = digits[i];
        let byte = if d < 10 {
            48 + d
        } else {
            87 + d
        };
        out.push(byte);
        proof {
            assert(unit_escape(unit as int).subrange(2, 3 + i as int) =~= unit_escape(
                unit as int,
            ).subrange(2, 2 + i as int).push(byte));
        }
        i = i + 1;
    }
    proof {
        assert(start =~= old(out)@ + seq![92u8, 117u8]);
        assert(unit_escape(unit as int) =~= seq![92u8, 117u8] + unit_escape(unit as int).subrange(2, 6));
    }
}

/// Appends a text with every character that is not ASCII escaped.
fn push_ascii_escaped(out: &mut Vec<u8>, text: &str)
    ensures
        final(out)@ == old(out)@ + ascii_escape(text@),
{
    let ghost start = out@;
    let n = text.unicode_len();
    let mut i: usize = 0;
    proof {
        assert(text@.take(0) =~= Seq::<char>::empty());
        assert(start + ascii_escape(Seq::<char>::empty()) =~= start);
    }
    while i < n
        invariant
            i <= n,
            n == text@.len(),
            out@ == start + ascii_escape(text@.take(i as int)),
        decreases n - i,
    {
        let c = text.get_char(i);
        let code = c as u32;
        proof {
            assert(text@.take(i + 1).drop_last() =~= text@.take(i as int));
            assert(text@.take(i + 1).last() == c);
        }
        let ghost mid = out@;
        if code < 128 {
            out.push(code as u8);
            proof {
                assert(out@ =~= mid + char_escape(c));
            }
        } else if code < 0x10000 {
            push_unit_escape(out, code);
        } else {
            let v = code - 0x10000;
            push_unit_escape(out, 0xD800 + v / 1024);
            push_unit_escape(out, 0xDC00 + v % 1024);
            proof {
                assert(out@ =~= mid + char_escape(c));
            }
        }
        proof {
            assert(start + ascii_escape(text@.take(i + 1)) =~= mid + char_escape(c));
        }
        i = i + 1;
    }
    proof {
        assert(text@.take(n as int) =~= text@);
    }
}

/// Whether each file name of a snapshot sorts strictly before the next, byte by
/// byte: the order of a map keyed by file name, in which no name occurs twice.
pub open spec fn ordered_snapshot(files: Seq<(String, FileState)>) -> bool {
    forall|j: int|
        0 <= j < files.len() - 1 ==> bytes_less(encode_utf8((#[trigger] files[j]).0@), encode_utf8(files[j + 1].0@))
}

/// Whether a snapshot lists its files in strictly increasing order of name.
pub fn is_ordered_snapshot(files: &Vec<(String, FileState)>) -> (ordered: bool)
    ensures
        ordered == ordered_snapshot(files@),
{
    let mut j: usize = 1;
    while j < files.len()
        invariant
            1 <= j,
            forall|m: int|
                0 <= m < j - 1 && m < files@.len() - 1 ==> bytes_less(
                    encode_utf8((#[trigger] files@[m]).0@),
                    encode_utf8(files@[m + 1].0@),
                ),
        decreases files@.len() - j,
    {
        if !text_less(files[j - 1].0.as_str(), files[j].0.as_str()) {
            proof {
                let m = j - 1;
                assert(files@[m as int] == files@[m as int]);
            }
            return false;
        }
        j = j + 1;
    }
    true
}

/// The bytes of the first `k` entries of a snapshot written as a JSON object
/// from file names to digests, names escaped to ASCII, after the opening brace.
pub open spec fn snapshot_entries(files: Seq<(String, FileState)>, k: int) -> Result<Seq<u8>, Seq<char>>
    decreases k,
{
    if k <= 0 {
        Ok(seq![123u8])
    } else {
        match snapshot_entries(files, k - 1) {
            Err(e) => Err(e),
            Ok(text) => match json_quoted(files[k - 1].0@) {
                Err(e) => Err(e),
                Ok(quoted) => Ok(
                    text + (if k - 1 == 0 {
                        Seq::empty()
                    } else {
                        seq![44u8, 32u8]
                    }) + ascii_escape(quoted) + seq![58u8, 32u8, 34u8] + encode_utf8(
                        files[k - 1].1.digest@,
                    ) + seq![34u8],
                ),
            },
        }
    }
}

/// A snapshot written as a JSON object from file names to digests, with `", "`
/// and `": "` between items and every character beyond ASCII escaped.
pub open spec fn snapshot_text(files: Seq<(String, FileState)>) -> Result<Seq<u8>, Seq<char>> {
    match snapshot_entries(files, files.len() as int) {
        Ok(text) => Ok(text + seq![125u8]),
        Err(e) => Err(e),
    }
}

/// The digest that identifies a snapshot in reports: SHA-256 of the snapshot
/// written as [`snapshot_text`] says.
pub fn source_fingerprint(files: &Vec<(String, FileState)>) -> (result: Result<String, String>)
    requires
        ordered_snapshot(files@),
    ensures
        match snapshot_text(files@) {
            Ok(text) => result matches Ok(hex) && hex@ == sha256_hex(text),
            Err(e) => result matches Err(message) && message@ == e,
        },
{
    let mut encoded: Vec<u8> = Vec::new();
    encoded.push(123);
    let mut k: usize = 0;
    while k < files.len()
        invariant
            k <= files@.len(),
            snapshot_entries(files@, k as int) == Ok::<Seq<u8>, Seq<char>>(encoded@),
        decreases files@.len() - k,
    {
        let ghost before = encoded@;
        if k != 0 {
            encoded.push(44);
            encoded.push(32);
        }
        let quoted = match quote_json(files[k].0.as_str()) {
            Ok(q) => q,
            Err(e) => {
                proof {
                    lemma_entries_fail(files@, (k + 1) as int, files@.len() as int, e@);
                }
                return Err(e);
            },
        };
        push_ascii_escaped(&mut encoded, quoted.as_str());
        encoded.push(58);
        encoded.push(32);
        encoded.push(34);
        let d = files[k].1.digest.as_str().as_bytes();
        let mut j: usize = 0;
        let ghost mid = encoded@;
        while j < d.len()
            invariant
                j <= d@.len(),
                encoded@ == mid + d@.take(j as int),
            decreases d@.len() - j,
        {
            encoded.push(d[j]);
            proof {
                assert(d@.take(j + 1) =~= d@.take(j as int).push(d[j as int]));
            }
            j = j + 1;
        }
        encoded.push(34);
        proof {
            assert(d@.take(j as int) =~= d@);
            let sep: Seq<u8> = if k == 0 {
                Seq::empty()
            } else {
                seq![44u8, 32u8]
            };
            assert(encoded@ =~= before + sep + ascii_escape(quoted@) + seq![58u8, 32u8, 34u8]
                + encode_utf8(files@[k as int].1.digest@) + seq![34u8]);
        }
        k = k + 1;
    }
    let ghost body = encoded@;
    encoded.push(125);
    proof {
        assert(encoded@ =~= body + seq![125u8]);
        assert(snapshot_entries(files@, files@.len() as int) == Ok::<Seq<u8>, Seq<char>>(body));
    }
    Ok(digest(encoded.as_slice()))
}

/// Once an entry fails to quote, every longer prefix fails with its error.
proof fn lemma_entries_fail(files: Seq<(String, FileState)>, k: int, n: int, e: Seq<char>)
    requires
        1 <= k <= n,
        snapshot_entries(files, k) == Err::<Seq<u8>, Seq<char>>(e),
    ensures
        snapshot_entries(files, n) == Err::<Seq<u8>, Seq<char>>(e),
    decreases n - k,
{
    if k < n {
        assert(snapshot_entries(files, k + 1) == Err::<Seq<u8>, Seq<char>>(e));
        lemma_entries_fail(files, k + 1, n, e);
    }
}

/// The file names of a snapshot, in order.
pub open spec fn file_names(files: Seq<(String, FileState)>) -> Seq<Seq<char>> {
    files.map_values(|f: (String, FileState)| f.0@)
}

/// Whether a file name ends with `.rs`.
pub open spec fn rust_file(name: Seq<char>) -> bool {
    name.len() >= 3 && name.subrange(name.len() - 3, name.len() as int) == seq!['.', 'r', 's']
}

/// Whether a file name ends with `.rs`.
pub fn is_rust_file(name: &str) -> (rust: bool)
    ensures
        rust == rust_file(name@),
{
    let n = name.unicode_len();
    if n < 3 {
        return false;
    }
    let rust = name.get_char(n - 3) == '.' && name.get_char(n - 2) == 'r' && name.get_char(n - 1) == 's';
    proof {
        let tail = name@.subrange(n - 3, n as int);
        if rust {
            assert(tail =~= seq!['.', 'r', 's']);
        } else {
            assert(tail[0] == name@[n - 3] && tail[1] == name@[n - 2] && tail[2] == name@[n - 1]);
        }
    }
    rust
}

/// Walking the first `k` files of two snapshots of the same names, the names
/// whose state changed, or the complaint about the first changed file that is
/// not Rust source.
pub open spec fn changes(
    original: Seq<(String, FileState)>,
    candidate: Seq<(String, FileState)>,
    k: int,
) -> Result<Seq<Seq<char>>, Seq<char>>
    decreases k,
{
    if k <= 0 {
        Ok(Seq::empty())
    } else {
        match changes(original, candidate, k - 1) {
            Err(e) => Err(e),
            Ok(list) => if same_state(original[k - 1].1, candidate[k - 1].1) {
                Ok(list)
            } else if !rust_file(candidate[k - 1].0@) {
                Err("validation modified a non-Rust project file: "@ + candidate[k - 1].0@)
            } else {
                Ok(list.push(candidate[k - 1].0@))
            },
        }
    }
}

/// The files that a validation run changed, comparing the snapshot taken
/// after it with the one taken before: the run may neither create nor delete
/// files, nor change any file but Rust source.
pub fn changed_files(original: &Vec<(String, FileState)>, candidate: &Vec<(String, FileState)>) -> (result:
    Result<Vec<String>, String>)
    requires
        ordered_snapshot(original@),
        ordered_snapshot(candidate@),
    ensures
        file_names(original@) != file_names(candidate@) ==> (result matches Err(message) && message@
            == "validation created or deleted project files; unsupported path-sensitive build"@),
        file_names(original@) == file_names(candidate@) ==> match changes(
            original@,
            candidate@,
            candidate@.len() as int,
        ) {
            Ok(list) => (result matches Ok(names) && names@.map_values(|n: String| n@) == list),
            Err(e) => (result matches Err(message) && message@ == e),
        },
{
    let mut same_names = original.len() == candidate.len();
    let mut i: usize = 0;
    proof {
        if !same_names {
            assert(file_names(original@).len() != file_names(candidate@).len());
        }
    }
    while same_names && i < original.len()
        invariant
            i <= original@.len(),
            same_names ==> original@.len() == candidate@.len(),
            same_names ==> file_names(original@).take(i as int) == file_names(candidate@).take(i as int),
            !same_names ==> file_names(original@) != file_names(candidate@),
        decreases original@.len() - i + if same_names {
            1int
        } else {
            0int
        },
    {
        if original[i].0 != candidate[i].0 {
            same_names = false;
            proof {
                assert(file_names(original@)[i as int] != file_names(candidate@)[i as int]);
            }
        } else {
            proof {
                assert(file_names(original@).take(i + 1) =~= file_names(original@).take(i as int).push(
                    original@[i as int].0@,
                ));
                assert(file_names(candidate@).take(i + 1) =~= file_names(candidate@).take(i as int).push(
                    candidate@[i as int].0@,
                ));
            }
            i = i + 1;
        }
    }
    if !same_names {
        return Err(String::from_str("validation created or deleted project files; unsupported path-sensitive build"));
    }
    proof {
        assert(file_names(original@) =~= file_names(original@).take(i as int));
        assert(file_names(candidate@) =~= file_names(candidate@).take(i as int));
    }
    let mut changed: Vec<String> = Vec::new();
    let mut k: usize = 0;
    proof {
        assert(changed@.map_values(|n: String| n@) =~= Seq::<Seq<char>>::empty());
    }
    while k < candidate.len()
        invariant
            k <= candidate@.len(),
            original@.len() == candidate@.len(),
            file_names(original@) == file_names(candidate@),
            changes(original@, candidate@, k as int) == Ok::<Seq<Seq<char>>, Seq<char>>(
                changed@.map_values(|n: String| n@),
            ),
        decreases candidate@.len() - k,
    {
        let ghost before = changed@;
        if !states_equal(&original[k].1, &candidate[k].1) {
            let name = candidate[k].0.as_str();
            if !is_rust_file(name) {
                let mut message = String::from_str("validation modified a non-Rust project file: ");
                message.append(name);
                proof {
                    lemma_changes_fail(original@, candidate@, k + 1, candidate@.len() as int, message@);
                }
                return Err(message);
            }
            changed.push(candidate[k].0.clone());
            proof {
                assert(changed@.map_values(|n: String| n@) =~= before.map_values(|n: String| n@).push(
                    candidate@[k as int].0@,
                ));
            }
        }
        k = k + 1;
    }
    Ok(changed)
}

/// Once a prefix fails, every longer prefix fails with the same complaint.
proof fn lemma_changes_fail(
    original: Seq<(String, FileState)>,
    candidate: Seq<(String, FileState)>,
    k: int,
    n: int,
    e: Seq<char>,
)
    requires
        1 <= k <= n,
        changes(original, candidate, k) == Err::<Seq<Seq<char>>, Seq<char>>(e),
    ensures
        changes(original, candidate, n) == Err::<Seq<Seq<char>>, Seq<char>>(e),
    decreases n - k,
{
    if k < n {
        assert(changes(original, candidate, k + 1) == Err::<Seq<Seq<char>>, Seq<char>>(e));
        lemma_changes_fail(original, candidate, k + 1, n, e);
    }
}

} // verus!
