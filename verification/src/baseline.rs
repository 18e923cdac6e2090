//! Baselines of accepted findings: a finding is identified by a digest of its
//! rule, message, text and surrounding non-blank lines, so that edits elsewhere
//! in a file keep it recognisable; a baseline suppresses as many findings of a
//! fingerprint as it counts.
use sha2::{Digest, Sha256};
use vstd::prelude::*;
use vstd::string::StringExecFns;
use vstd::utf8::{encode_utf8, is_char_boundary};

use crate::json::{
    as_text, as_unsigned, field, get, json_of_bytes, json_same, parse_json_bytes, same_json, text_at, text_view,
    unsigned_at, JsonValue,
};
use crate::slices::find_last_byte;
use crate::snapshot::json_string;
use crate::suggestions::{bytes_less, lemma_bytes_less_total, lemma_bytes_less_trans, text_less};
use crate::syntax::comments::slice_of;
use crate::syntax::tree::same_text;

verus! {

/// The SHA-256 digest of some bytes as 64 lowercase hexadecimal digits.
pub uninterp spec fn sha256_hex(bytes: Seq<u8>) -> Seq<char>;

/// Whether a character is a lowercase hexadecimal digit.
pub open spec fn lower_hex_digit(c: char) -> bool {
    ('0' <= c && c <= '9') || ('a' <= c && c <= 'f')
}

/// Calls `Sha256::digest` and formats the 32-byte result with `{:x}`, which
/// prints each byte as two lowercase hexadecimal digits; the contract names the
/// result and states that shape.
#[verifier::external_body]
pub fn digest(bytes: &[u8]) -> (hex: String)
    ensures
        hex@ == sha256_hex(bytes@),
        hex@.len() == 64,
        forall|i: int| 0 <= i < hex@.len() ==> lower_hex_digit(#[trigger] hex@[i]),
{
    format!("{:x}", Sha256::digest(bytes))
}

/// A JSON string literal, or `null` for an absent text.
pub open spec fn json_option(text: Option<Seq<char>>) -> Seq<char> {
    match text {
        Some(t) => json_string(t),
        None => seq!['n', 'u', 'l', 'l'],
    }
}

/// The compact JSON array of a finding's file, rule, message, previous line,
/// text and next line, absent lines given as `null`, in UTF-8.
pub open spec fn anchor_json(
    file: Seq<char>,
    rule: Seq<char>,
    message: Seq<char>,
    previous: Option<Seq<char>>,
    body: Seq<char>,
    next: Option<Seq<char>>,
) -> Result<Seq<u8>, Seq<char>> {
    Ok(
        encode_utf8(
            seq!['['] + json_string(file) + seq![','] + json_string(rule) + seq![','] + json_string(message)
                + seq![','] + json_option(previous) + seq![','] + json_string(body) + seq![','] + json_option(
                next,
            ) + seq![']'],
        ),
    )
}

/// Calls `serde_json::to_vec` on the tuple of a finding's anchor fields. Writing
/// into a `Vec` cannot fail; serde_json writes a tuple as a compact JSON array,
/// each text as a string literal and each absent line as `null`, so the
/// contract states those bytes.
#[verifier::external_body]
fn anchor_bytes(
    file: &str,
    rule: &str,
    message: &str,
    previous: Option<&str>,
    body: &str,
    next: Option<&str>,
) -> (json: Result<Vec<u8>, String>)
    ensures
        match json {
            Ok(bytes) => anchor_json(
                file@,
                rule@,
                message@,
                match previous {
                    Some(p) => Some(p@),
                    None => None,
                },
                body@,
                match next {
                    Some(n) => Some(n@),
                    None => None,
                },
            ) == Ok::<Seq<u8>, Seq<char>>(bytes@),
            Err(_) => false,
        },
{
    serde_json::to_vec(&(file, rule, message, previous, body, next)).map_err(|error| error.to_string())
}

/// The byte length of the whitespace character that starts at `i`, or zero.
pub open spec fn space_at(b: Seq<u8>, i: int) -> int {
    let n = b.len() as int;
    if 0 <= i < n && (b[i] == 9 || b[i] == 10 || b[i] == 11 || b[i] == 12 || b[i] == 13 || b[i]
        == 32) {
        1
    } else if 0 <= i && i + 1 < n && b[i] == 0xC2 && (b[i + 1] == 0x85 || b[i + 1] == 0xA0) {
        2
    } else if 0 <= i && i + 2 < n && ((b[i] == 0xE1 && b[i + 1] == 0x9A && b[i + 2] == 0x80) || (
    b[i] == 0xE2 && b[i + 1] == 0x80 && (b[i + 2] <= 0x8A && b[i + 2] >= 0x80 || b[i + 2] == 0xA8
        || b[i + 2] == 0xA9 || b[i + 2] == 0xAF)) || (b[i] == 0xE2 && b[i + 1] == 0x81 && b[i + 2]
        == 0x9F) || (b[i] == 0xE3 && b[i + 1] == 0x80 && b[i + 2] == 0x80)) {
        3
    } else {
        0
    }
}

/// The byte length of the whitespace character that ends at `i`, or zero.
pub open spec fn space_before(b: Seq<u8>, i: int) -> int {
    if space_at(b, i - 1) == 1 {
        1
    } else if space_at(b, i - 2) == 2 {
        2
    } else if space_at(b, i - 3) == 3 {
        3
    } else {
        0
    }
}

/// A text without its leading Unicode whitespace.
pub open spec fn trim_start(b: Seq<u8>) -> Seq<u8>
    decreases b.len(),
{
    if space_at(b, 0) > 0 {
        trim_start(b.subrange(space_at(b, 0), b.len() as int))
    } else {
        b
    }
}

/// A text without its trailing Unicode whitespace.
pub open spec fn trim_end(b: Seq<u8>) -> Seq<u8>
    decreases b.len(),
{
    if space_before(b, b.len() as int) > 0 {
        trim_end(b.subrange(0, b.len() - space_before(b, b.len() as int)))
    } else {
        b
    }
}

/// A text without its leading and trailing Unicode whitespace.
pub open spec fn trim(b: Seq<u8>) -> Seq<u8> {
    trim_end(trim_start(b))
}

/// The last line of a text, trimmed, that is not blank.
pub open spec fn previous_line(b: Seq<u8>) -> Option<Seq<u8>>
    decreases b.len(),
{
    let start = match find_last_byte(b, 10) {
        Some(n) => n + 1,
        None => 0,
    };
    if !(0 <= start <= b.len()) {
        None
    } else if trim(b.subrange(start, b.len() as int)).len() > 0 {
        Some(trim(b.subrange(start, b.len() as int)))
    } else if start == 0 {
        None
    } else {
        previous_line(b.subrange(0, start - 1))
    }
}

/// The first line of `b[i..]`, trimmed, that is not blank.
pub open spec fn next_line_from(b: Seq<u8>, i: int) -> Option<Seq<u8>>
    decreases b.len() + 1 - i,
{
    if i < 0 || i >= b.len() {
        None
    } else {
        let end = line_end(b, i);
        if end < i || end > b.len() {
            None
        } else if trim(b.subrange(i, end)).len() > 0 {
            Some(trim(b.subrange(i, end)))
        } else {
            next_line_from(b, end + 1)
        }
    }
}

/// The offset of the line feed that ends the line starting at `i`, or the end of the text.
pub open spec fn line_end(b: Seq<u8>, i: int) -> int
    decreases b.len() - i,
{
    if i < 0 || i >= b.len() || b[i] == 10 {
        if i < 0 {
            0
        } else {
            i
        }
    } else {
        line_end(b, i + 1)
    }
}

/// After a whitespace character that starts at a character boundary comes another boundary.
pub proof fn lemma_space_end_boundary(b: Seq<u8>, i: int)
    requires
        vstd::utf8::valid_utf8(b),
        is_char_boundary(b, i),
        space_at(b, i) > 0,
    ensures
        is_char_boundary(b, i + space_at(b, i)),
{
    let k = space_at(b, i);
    if k == 1 {
        crate::slices::lemma_ascii_byte_boundaries(b, i);
    } else {
        vstd::utf8::valid_utf8_split(b, i);
        let rest = b.subrange(i, b.len() as int);
        assert(rest[0] == b[i]);
        assert(rest.len() != 0);
        assert(vstd::utf8::valid_first_scalar(rest) && vstd::utf8::valid_utf8(
            vstd::utf8::pop_first_scalar(rest),
        ));
        assert(vstd::utf8::length_of_first_scalar(rest) == k);
        let after = vstd::utf8::pop_first_scalar(rest);
        if i + k == b.len() {
            vstd::utf8::is_char_boundary_start_end_of_seq(b);
        } else {
            assert(after[0] == b[i + k]);
            assert(after.len() != 0);
            assert(vstd::utf8::valid_first_scalar(after));
            assert(!vstd::utf8::is_continuation_byte(after[0]));
            vstd::utf8::is_char_boundary_iff_not_is_continuation_byte(b, i + k);
        }
    }
}

/// A whitespace character that ends at `i` starts at a character boundary.
pub proof fn lemma_space_start_boundary(b: Seq<u8>, i: int)
    requires
        vstd::utf8::valid_utf8(b),
        space_before(b, i) > 0,
    ensures
        is_char_boundary(b, i - space_before(b, i)),
{
    let k = space_before(b, i);
    assert(0 <= i - k < b.len());
    assert(!vstd::utf8::is_continuation_byte(b[i - k]));
    vstd::utf8::is_char_boundary_iff_not_is_continuation_byte(b, i - k);
}

/// The byte length of the whitespace character that starts at `i`, or zero.
fn space_len_at(b: &[u8], i: usize) -> (k: usize)
    ensures
        k == space_at(b@, i as int),
{
    let n = b.len();
    if i < n && (b[i] == 9 || b[i] == 10 || b[i] == 11 || b[i] == 12 || b[i] == 13 || b[i] == 32) {
        1
    } else if i < n && n - i > 1 && b[i] == 0xC2 && (b[i + 1] == 0x85 || b[i + 1] == 0xA0) {
        2
    } else if i < n && n - i > 2 && ((b[i] == 0xE1 && b[i + 1] == 0x9A && b[i + 2] == 0x80) || (
    b[i] == 0xE2 && b[i + 1] == 0x80 && (b[i + 2] <= 0x8A && b[i + 2] >= 0x80 || b[i + 2] == 0xA8
        || b[i + 2] == 0xA9 || b[i + 2] == 0xAF)) || (b[i] == 0xE2 && b[i + 1] == 0x81 && b[i + 2]
        == 0x9F) || (b[i] == 0xE3 && b[i + 1] == 0x80 && b[i + 2] == 0x80)) {
        3
    } else {
        0
    }
}

/// The byte length of the whitespace character that ends at `i`, or zero.
fn space_len_before(b: &[u8], i: usize) -> (k: usize)
    ensures
        k == space_before(b@, i as int),
{
    if i >= 1 && space_len_at(b, i - 1) == 1 {
        1
    } else if i >= 2 && space_len_at(b, i - 2) == 2 {
        2
    } else if i >= 3 && space_len_at(b, i - 3) == 3 {
        3
    } else {
        0
    }
}

/// The offsets of `text[lo..hi]` without its leading and trailing whitespace.
fn trim_range(text: &str, lo: usize, hi: usize) -> (bounds: (usize, usize))
    requires
        lo <= hi <= encode_utf8(text@).len(),
        is_char_boundary(encode_utf8(text@), lo as int),
        is_char_boundary(encode_utf8(text@), hi as int),
    ensures
        lo <= bounds.0 <= bounds.1 <= hi,
        crate::slices::char_range(encode_utf8(text@), bounds.0 as int, bounds.1 as int),
        encode_utf8(text@).subrange(bounds.0 as int, bounds.1 as int) == trim(
            encode_utf8(text@).subrange(lo as int, hi as int),
        ),
{
    let b = text.as_bytes();
    proof {
        vstd::utf8::encode_utf8_valid_utf8(text@);
    }
    let mut s = lo;
    loop
        invariant
            lo <= s <= hi <= b@.len(),
            b@ == encode_utf8(text@),
            vstd::utf8::valid_utf8(b@),
            is_char_boundary(b@, s as int),
            is_char_boundary(b@, hi as int),
            trim_start(b@.subrange(lo as int, hi as int)) == trim_start(b@.subrange(s as int, hi as int)),
        ensures
            lo <= s <= hi,
            space_at(b@.subrange(s as int, hi as int), 0) == 0,
        decreases hi - s,
    {
        let k = space_len_at(slice_of(b, s, hi), 0);
        if k == 0 {
            break;
        }
        proof {
            let part = b@.subrange(s as int, hi as int);
            assert(space_at(part, 0) == k);
            assert(space_at(b@, s as int) == k) by {
                assert(part[0] == b@[s as int]);
                if k >= 2 {
                    assert(part[1] == b@[s + 1]);
                }
                if k >= 3 {
                    assert(part[2] == b@[s + 2]);
                }
            }
            lemma_space_end_boundary(b@, s as int);
            assert(part.subrange(k as int, part.len() as int) =~= b@.subrange(s + k, hi as int));
        }
        s = s + k;
    }
    let mut e = hi;
    loop
        invariant
            s <= e <= hi <= b@.len(),
            b@ == encode_utf8(text@),
            vstd::utf8::valid_utf8(b@),
            is_char_boundary(b@, s as int),
            is_char_boundary(b@, e as int),
            trim_end(b@.subrange(s as int, hi as int)) == trim_end(b@.subrange(s as int, e as int)),
        ensures
            s <= e <= hi,
            space_before(b@.subrange(s as int, e as int), (e - s) as int) == 0,
        decreases e - s,
    {
        let part = slice_of(b, s, e);
        let k = space_len_before(part, e - s);
        if k == 0 {
            break;
        }
        proof {
            let p = b@.subrange(s as int, e as int);
            assert(space_before(p, p.len() as int) == k);
            assert(space_before(b@, e as int) == k) by {
                assert(p[p.len() - 1] == b@[e - 1]);
                if e - s >= 2 {
                    assert(p[p.len() - 2] == b@[e - 2]);
                }
                if e - s >= 3 {
                    assert(p[p.len() - 3] == b@[e - 3]);
                }
                if k == 1 {
                    assert(space_at(p, p.len() - 1) == 1);
                } else if k == 2 {
                    assert(space_at(p, p.len() - 2) == 2);
                } else {
                    assert(space_at(p, p.len() - 3) == 3);
                }
            }
            lemma_space_start_boundary(b@, e as int);
            assert(p.subrange(0, p.len() - k) =~= b@.subrange(s as int, e - k));
        }
        e = e - k;
    }
    proof {
        let t = b@.subrange(s as int, hi as int);
        assert(trim_start(t) == t);
        let u = b@.subrange(s as int, e as int);
        assert(trim_end(u) == u);
    }
    (s, e)
}

/// The bounds of the last non-blank line of `text`, trimmed.
fn previous_bounds(text: &str) -> (bounds: Option<(usize, usize)>)
    ensures
        match bounds {
            Some((s, e)) => crate::slices::char_range(encode_utf8(text@), s as int, e as int)
                && previous_line(encode_utf8(text@)) == Some(encode_utf8(text@).subrange(s as int, e as int)),
            None => previous_line(encode_utf8(text@)) is None,
        },
{
    let b = text.as_bytes();
    let ghost whole = b@;
    proof {
        vstd::utf8::encode_utf8_valid_utf8(text@);
        vstd::utf8::is_char_boundary_start_end_of_seq(whole);
        assert(whole.subrange(0, whole.len() as int) =~= whole);
    }
    let mut hi = b.len();
    loop
        invariant
            hi <= whole.len(),
            whole == b@,
            whole == encode_utf8(text@),
            vstd::utf8::valid_utf8(whole),
            is_char_boundary(whole, 0),
            is_char_boundary(whole, hi as int),
            previous_line(whole) == previous_line(whole.subrange(0, hi as int)),
        decreases hi,
    {
        let ghost part = whole.subrange(0, hi as int);
        let start = match crate::slices::find_last_byte_before(b, hi, 10) {
            Some(n) => {
                proof {
                    crate::slices::lemma_ascii_byte_boundaries(whole, n as int);
                }
                n + 1
            },
            None => 0,
        };
        let (s, e) = trim_range(text, start, hi);
        proof {
            assert(part.subrange(start as int, part.len() as int) =~= whole.subrange(
                start as int,
                hi as int,
            ));
        }
        if s < e {
            proof {
                assert(whole.subrange(s as int, e as int).len() > 0);
            }
            return Some((s, e));
        }
        if start == 0 {
            return None;
        }
        proof {
            assert(part.subrange(0, start - 1) =~= whole.subrange(0, start - 1));
        }
        hi = start - 1;
    }
}

/// The bounds of the first non-blank line of `text`, trimmed.
fn next_bounds(text: &str) -> (bounds: Option<(usize, usize)>)
    ensures
        match bounds {
            Some((s, e)) => crate::slices::char_range(encode_utf8(text@), s as int, e as int)
                && next_line_from(encode_utf8(text@), 0) == Some(encode_utf8(text@).subrange(s as int, e as int)),
            None => next_line_from(encode_utf8(text@), 0) is None,
        },
{
    let b = text.as_bytes();
    let ghost whole = b@;
    proof {
        vstd::utf8::encode_utf8_valid_utf8(text@);
        vstd::utf8::is_char_boundary_start_end_of_seq(whole);
    }
    let mut i: usize = 0;
    loop
        invariant
            i <= whole.len() + 1,
            whole == b@,
            whole == encode_utf8(text@),
            vstd::utf8::valid_utf8(whole),
            i <= whole.len() ==> is_char_boundary(whole, i as int),
            is_char_boundary(whole, whole.len() as int),
            next_line_from(whole, 0) == next_line_from(whole, i as int),
        decreases whole.len() + 1 - i,
    {
        if i >= b.len() {
            return None;
        }
        let mut end = i;
        while end < b.len() && b[end] != 10
            invariant
                i <= end <= whole.len(),
                whole == b@,
                line_end(whole, i as int) == line_end(whole, end as int),
            decreases whole.len() - end,
        {
            end = end + 1;
        }
        proof {
            if end < whole.len() {
                crate::slices::lemma_ascii_byte_boundaries(whole, end as int);
            }
        }
        let (s, e) = trim_range(text, i, end);
        if s < e {
            proof {
                assert(whole.subrange(s as int, e as int).len() > 0);
            }
            return Some((s, e));
        }
        if end == b.len() {
            proof {
                assert(line_end(whole, end as int) == end);
                assert(next_line_from(whole, end + 1) is None);
            }
            return None;
        }
        i = end + 1;
    }
}

/// Whether a baseline fingerprint is 64 lowercase hexadecimal digits.
pub open spec fn valid_fingerprint_text(text: Seq<u8>) -> bool {
    text.len() == 64 && forall|i: int|
        0 <= i < text.len() ==> (48 <= #[trigger] text[i] <= 57 || 97 <= text[i] <= 102)
}

/// Whether a baseline fingerprint is 64 lowercase hexadecimal digits.
pub fn valid_fingerprint(fingerprint: &str) -> (valid: bool)
    ensures
        valid == valid_fingerprint_text(encode_utf8(fingerprint@)),
{
    let b = fingerprint.as_bytes();
    if b.len() != 64 {
        return false;
    }
    let mut i: usize = 0;
    while i < b.len()
        invariant
            i <= b@.len(),
            b@ == encode_utf8(fingerprint@),
            forall|k: int| 0 <= k < i ==> (48 <= #[trigger] b@[k] <= 57 || 97 <= b@[k] <= 102),
        decreases b@.len() - i,
    {
        if !((48 <= b[i] && b[i] <= 57) || (97 <= b[i] && b[i] <= 102)) {
            proof {
                assert(!(48 <= b@[i as int] <= 57 || 97 <= b@[i as int] <= 102));
            }
            return false;
        }
        i = i + 1;
    }
    true
}

/// The characters of the trimmed bytes of an optional line.
pub open spec fn line_chars(line: Option<Seq<u8>>) -> Option<Seq<char>> {
    match line {
        Some(b) => Some(vstd::utf8::decode_utf8(b)),
        None => None,
    }
}

/// The JSON anchor of a finding at `source[start..end]`.
pub open spec fn finding_anchor(
    file: Seq<char>,
    rule: Seq<char>,
    message: Seq<char>,
    source: Seq<u8>,
    start: int,
    end: int,
) -> Result<Seq<u8>, Seq<char>> {
    anchor_json(
        file,
        rule,
        message,
        line_chars(previous_line(source.subrange(0, start))),
        vstd::utf8::decode_utf8(trim(source.subrange(start, end))),
        line_chars(next_line_from(source.subrange(end, source.len() as int), 0)),
    )
}

/// The fingerprint of a finding of `rule` with `message` at `source[start..end]`
/// of `file`: the digest of the finding's anchor.
pub fn fingerprint(
    file: &str,
    rule: &str,
    message: &str,
    source: &str,
    start: usize,
    end: usize,
) -> (result: Result<String, String>)
    ensures
        match result {
            Ok(hex) => {
                &&& crate::slices::char_range(encode_utf8(source@), start as int, end as int)
                &&& finding_anchor(file@, rule@, message@, encode_utf8(source@), start as int, end as int) is Ok
                &&& hex@ == sha256_hex(
                    finding_anchor(file@, rule@, message@, encode_utf8(source@), start as int, end as int)->Ok_0,
                )
            },
            Err(text) => if crate::slices::char_range(encode_utf8(source@), start as int, end as int) {
                finding_anchor(file@, rule@, message@, encode_utf8(source@), start as int, end as int)
                    == Err::<Seq<u8>, Seq<char>>(text@)
            } else {
                text@ == "invalid baseline span"@
            },
        },
{
    let b = source.as_bytes();
    proof {
        vstd::utf8::encode_utf8_valid_utf8(source@);
        vstd::utf8::is_char_boundary_start_end_of_seq(b@);
    }
    if !(start <= end && end <= b.len() && source.is_char_boundary(start) && source.is_char_boundary(end)) {
        return Err(String::from_str("invalid baseline span"));
    }
    let before = crate::slices::substring(source, 0, start);
    let body = crate::slices::substring(source, start, end);
    let after = crate::slices::substring(source, end, b.len());
    let previous = match previous_bounds(before) {
        Some((s, e)) => Some(crate::slices::substring(before, s, e)),
        None => None,
    };
    let next = match next_bounds(after) {
        Some((s, e)) => Some(crate::slices::substring(after, s, e)),
        None => None,
    };
    proof {
        vstd::utf8::encode_utf8_valid_utf8(body@);
        vstd::utf8::is_char_boundary_start_end_of_seq(encode_utf8(body@));
    }
    let (s, e) = trim_range(body, 0, body.as_bytes().len());
    let trimmed = crate::slices::substring(body, s, e);
    proof {
        assert(encode_utf8(body@).subrange(0, encode_utf8(body@).len() as int) =~= encode_utf8(body@));
        vstd::utf8::encode_utf8_decode_utf8(trimmed@);
        match previous {
            Some(p) => {
                vstd::utf8::encode_utf8_decode_utf8(p@);
            },
            None => {},
        }
        match next {
            Some(n) => {
                vstd::utf8::encode_utf8_decode_utf8(n@);
            },
            None => {},
        }
    }
    let json = anchor_bytes(file, rule, message, previous, trimmed, next)?;
    Ok(digest(json.as_slice()))
}

/// The text of each fingerprint.
pub open spec fn texts(fingerprints: Seq<String>) -> Seq<Seq<char>> {
    fingerprints.map_values(|f: String| f@)
}

/// How many of `fingerprints` equal `key`.
pub open spec fn occurrences(fingerprints: Seq<Seq<char>>, key: Seq<char>) -> nat
    decreases fingerprints.len(),
{
    if fingerprints.len() == 0 {
        0
    } else {
        occurrences(fingerprints.drop_last(), key) + if fingerprints.last() == key {
            1nat
        } else {
            0nat
        }
    }
}

/// A text occurs at most as often as there are texts.
proof fn lemma_occurrences_bound(fingerprints: Seq<Seq<char>>, key: Seq<char>)
    ensures
        occurrences(fingerprints, key) <= fingerprints.len(),
    decreases fingerprints.len(),
{
    if fingerprints.len() > 0 {
        lemma_occurrences_bound(fingerprints.drop_last(), key);
    }
}

/// Whether counted fingerprints are in strictly increasing byte order.
pub open spec fn tallies_ordered(counts: Seq<(String, usize)>) -> bool {
    forall|i: int, j: int|
        0 <= i < j < counts.len() ==> bytes_less(
            encode_utf8(#[trigger] counts[i].0@),
            encode_utf8(#[trigger] counts[j].0@),
        )
}

/// Whether `key` is among the counted fingerprints.
pub open spec fn listed(counts: Seq<(String, usize)>, key: Seq<char>) -> bool {
    exists|i: int| 0 <= i < counts.len() && #[trigger] counts[i].0@ == key
}

/// Counts each distinct fingerprint: the result lists every fingerprint once,
/// in byte order, with the number of times it occurs.
pub fn tally(fingerprints: &Vec<String>) -> (counts: Vec<(String, usize)>)
    ensures
        tallies_ordered(counts@),
        forall|i: int|
            0 <= i < counts@.len() ==> #[trigger] counts@[i].1 == occurrences(
                texts(fingerprints@),
                counts@[i].0@,
            ) && counts@[i].1 > 0,
        forall|k: int| 0 <= k < fingerprints@.len() ==> #[trigger] listed(counts@, fingerprints@[k]@),
{
    let ghost all = texts(fingerprints@);
    let mut counts: Vec<(String, usize)> = Vec::new();
    let mut k: usize = 0;
    while k < fingerprints.len()
        invariant
            k <= fingerprints@.len(),
            all == texts(fingerprints@),
            tallies_ordered(counts@),
            forall|i: int|
                0 <= i < counts@.len() ==> #[trigger] counts@[i].1 == occurrences(
                    all.take(k as int),
                    counts@[i].0@,
                ) && counts@[i].1 > 0,
            forall|m: int| 0 <= m < k ==> #[trigger] listed(counts@, fingerprints@[m]@),
        decreases fingerprints@.len() - k,
    {
        let fp = &fingerprints[k];
        let ghost before = counts@;
        let ghost key = fp@;
        proof {
            assert(all.take(k + 1).drop_last() =~= all.take(k as int));
            assert(all.take(k + 1).last() == key);
        }
        let mut p: usize = 0;
        while p < counts.len() && text_less(counts[p].0.as_str(), fp.as_str())
            invariant
                p <= counts@.len(),
                counts@ == before,
                key == fp@,
                forall|i: int| 0 <= i < p ==> bytes_less(encode_utf8(#[trigger] before[i].0@), encode_utf8(key)),
            decreases counts@.len() - p,
        {
            p = p + 1;
        }
        proof {
            lemma_bytes_less_total(encode_utf8(key), encode_utf8(key));
            if p < before.len() {
                lemma_bytes_less_total(encode_utf8(before[p as int].0@), encode_utf8(key));
            }
        }
        if p < counts.len() && counts[p].0 == *fp {
            let c = counts[p].1;
            proof {
                lemma_occurrences_bound(all.take(k as int), key);
            }
            let (name, _) = counts.remove(p);
            counts.insert(p, (name, c + 1));
            proof {
                assert(counts@ =~= before.update(p as int, counts@[p as int]));
                assert forall|i: int| 0 <= i < counts@.len() implies #[trigger] counts@[i].1 == occurrences(
                    all.take(k + 1),
                    counts@[i].0@,
                ) && counts@[i].1 > 0 by {
                    if i != p {
                        assert(counts@[i] == before[i]);
                        assert(counts@[i].0@ != key) by {
                            if i < p {
                                lemma_bytes_less_total(encode_utf8(before[i].0@), encode_utf8(key));
                            } else {
                                assert(bytes_less(encode_utf8(before[p as int].0@), encode_utf8(before[i].0@)));
                                lemma_bytes_less_total(encode_utf8(key), encode_utf8(key));
                            }
                        }
                    }
                }
                assert forall|m: int| 0 <= m < k + 1 implies #[trigger] listed(counts@, fingerprints@[m]@) by {
                    if m == k {
                        assert(counts@[p as int].0@ == fingerprints@[m]@);
                    } else {
                        assert(listed(before, fingerprints@[m]@));
                        let i = choose|i: int| 0 <= i < before.len() && #[trigger] before[i].0@ == fingerprints@[m]@;
                        assert(counts@[i].0@ == before[i].0@);
                    }
                }
            }
        } else {
            let name = fp.clone();
            counts.insert(p, (name, 1));
            proof {
                if p < before.len() {
                    assert(bytes_less(encode_utf8(key), encode_utf8(before[p as int].0@))) by {
                        if encode_utf8(before[p as int].0@) == encode_utf8(key) {
                            vstd::utf8::encode_utf8_decode_utf8(key);
                            vstd::utf8::encode_utf8_decode_utf8(before[p as int].0@);
                        }
                    }
                }
                assert forall|i: int, j: int| 0 <= i < j < counts@.len() implies bytes_less(
                    encode_utf8(#[trigger] counts@[i].0@),
                    encode_utf8(#[trigger] counts@[j].0@),
                ) by {
                    if j == p {
                        assert(counts@[i] == before[i]);
                    } else if i == p {
                        assert(counts@[j] == before[j - 1]);
                        if j - 1 > p {
                            lemma_bytes_less_trans(
                                encode_utf8(key),
                                encode_utf8(before[p as int].0@),
                                encode_utf8(before[j - 1].0@),
                            );
                        }
                    } else if j < p {
                        assert(counts@[i] == before[i] && counts@[j] == before[j]);
                    } else if i < p {
                        assert(counts@[i] == before[i] && counts@[j] == before[j - 1]);
                        if j - 1 > p {
                            lemma_bytes_less_trans(
                                encode_utf8(key),
                                encode_utf8(before[p as int].0@),
                                encode_utf8(before[j - 1].0@),
                            );
                        }
                        lemma_bytes_less_trans(
                            encode_utf8(before[i].0@),
                            encode_utf8(key),
                            encode_utf8(before[j - 1].0@),
                        );
                    } else {
                        assert(counts@[i] == before[i - 1] && counts@[j] == before[j - 1]);
                    }
                }
                assert(forall|i: int| 0 <= i < before.len() ==> #[trigger] before[i].0@ != key) by {
                    assert forall|i: int| 0 <= i < before.len() implies #[trigger] before[i].0@ != key by {
                        if i < p {
                            lemma_bytes_less_total(encode_utf8(before[i].0@), encode_utf8(key));
                        } else if i > p {
                            lemma_bytes_less_trans(
                                encode_utf8(key),
                                encode_utf8(before[p as int].0@),
                                encode_utf8(before[i].0@),
                            );
                            lemma_bytes_less_total(encode_utf8(key), encode_utf8(key));
                        }
                    }
                }
                assert(occurrences(all.take(k as int), key) == 0) by {
                    assert forall|m: int| 0 <= m < k implies all.take(k as int)[m] != key by {
                        assert(listed(before, fingerprints@[m]@));
                        let i = choose|i: int| 0 <= i < before.len() && #[trigger] before[i].0@ == fingerprints@[m]@;
                    }
                    lemma_absent(all.take(k as int), key);
                }
                assert forall|i: int| 0 <= i < counts@.len() implies #[trigger] counts@[i].1 == occurrences(
                    all.take(k + 1),
                    counts@[i].0@,
                ) && counts@[i].1 > 0 by {
                    if i < p {
                        assert(counts@[i] == before[i]);
                    } else if i > p {
                        assert(counts@[i] == before[i - 1]);
                    }
                }
                assert forall|m: int| 0 <= m < k + 1 implies #[trigger] listed(counts@, fingerprints@[m]@) by {
                    if m == k {
                        assert(counts@[p as int].0@ == fingerprints@[m]@);
                    } else {
                        assert(listed(before, fingerprints@[m]@));
                        let i = choose|i: int| 0 <= i < before.len() && #[trigger] before[i].0@ == fingerprints@[m]@;
                        if i < p {
                            assert(counts@[i] == before[i]);
                        } else {
                            assert(counts@[i + 1] == before[i]);
                        }
                    }
                }
            }
        }
        k = k + 1;
    }
    proof {
        assert(all.take(k as int) =~= all);
    }
    counts
}

/// A text that occurs is one of the texts.
pub proof fn lemma_occurs(texts: Seq<Seq<char>>, key: Seq<char>)
    requires
        occurrences(texts, key) > 0,
    ensures
        texts.contains(key),
    decreases texts.len(),
{
    if texts.last() == key {
        assert(texts[texts.len() - 1] == key);
    } else {
        lemma_occurs(texts.drop_last(), key);
        let i = choose|i: int| 0 <= i < texts.drop_last().len() && texts.drop_last()[i] == key;
        assert(texts[i] == key);
    }
}

/// A text that none of the texts equals occurs nowhere.
proof fn lemma_absent(texts: Seq<Seq<char>>, key: Seq<char>)
    requires
        forall|m: int| 0 <= m < texts.len() ==> texts[m] != key,
    ensures
        occurrences(texts, key) == 0,
    decreases texts.len(),
{
    if texts.len() > 0 {
        lemma_absent(texts.drop_last(), key);
    }
}

/// The complaint about one baseline entry, a fingerprint and the count that it
/// holds where the count is a non-negative integer, if there is one: the count
/// must be above zero and the fingerprint 64 lowercase hexadecimal digits.
pub open spec fn entry_error(fingerprint: Seq<char>, count: Option<u64>) -> Option<Seq<char>> {
    if !(count matches Some(n) && n != 0) {
        Some("invalid baseline finding count"@)
    } else if !valid_fingerprint_text(encode_utf8(fingerprint)) {
        Some("invalid baseline fingerprint"@)
    } else {
        None
    }
}

/// The complaint about the first entry from `i` on that has one.
pub open spec fn first_entry_error(entries: Seq<(String, Option<u64>)>, i: int) -> Option<Seq<char>>
    decreases entries.len() - i,
{
    if i < 0 || i >= entries.len() {
        None
    } else {
        match entry_error(entries[i].0@, entries[i].1) {
            Some(message) => Some(message),
            None => first_entry_error(entries, i + 1),
        }
    }
}

/// Checks the entries of a baseline in order and reports the first bad one.
pub fn check_entries(entries: &Vec<(String, Option<u64>)>) -> (result: Result<(), String>)
    ensures
        match result {
            Ok(()) => first_entry_error(entries@, 0) is None,
            Err(message) => first_entry_error(entries@, 0) == Some(message@),
        },
{
    let mut i: usize = 0;
    while i < entries.len()
        invariant
            i <= entries@.len(),
            first_entry_error(entries@, 0) == first_entry_error(entries@, i as int),
        decreases entries@.len() - i,
    {
        let counted = match entries[i].1 {
            Some(n) => n != 0,
            None => false,
        };
        if !counted {
            return Err(String::from_str("invalid baseline finding count"));
        }
        if !valid_fingerprint(entries[i].0.as_str()) {
            return Err(String::from_str("invalid baseline fingerprint"));
        }
        i = i + 1;
    }
    Ok(())
}

/// The first entry whose fingerprint is `key`.
pub open spec fn entry_of(keys: Seq<(String, u64)>, key: Seq<char>, i: int) -> Option<int>
    decreases keys.len() - i,
{
    if i < 0 || i >= keys.len() {
        None
    } else if keys[i].0@ == key {
        Some(i)
    } else {
        entry_of(keys, key, i + 1)
    }
}

/// Which findings a baseline keeps, walking them in order with `left[j]` uses
/// remaining of entry `j`: a finding whose fingerprint names an entry with a
/// use left takes it and is dropped, any other is kept.
pub open spec fn kept_findings(
    fingerprints: Seq<Seq<char>>,
    entries: Seq<(String, u64)>,
    left: Seq<u64>,
) -> Seq<bool>
    decreases fingerprints.len(),
{
    if fingerprints.len() == 0 {
        Seq::empty()
    } else {
        let found = entry_of(entries, fingerprints[0], 0);
        if found is Some && 0 <= found->0 < left.len() && left[found->0] > 0 {
            seq![false] + kept_findings(
                fingerprints.drop_first(),
                entries,
                left.update(found->0, (left[found->0] - 1) as u64),
            )
        } else {
            seq![true] + kept_findings(fingerprints.drop_first(), entries, left)
        }
    }
}

/// An entry that is found lies at or after where the search starts.
proof fn lemma_entry_of_bounds(keys: Seq<(String, u64)>, key: Seq<char>, i: int)
    ensures
        entry_of(keys, key, i) matches Some(j) ==> i <= j < keys.len() && keys[j].0@ == key,
    decreases keys.len() - i,
{
    if 0 <= i < keys.len() && keys[i].0@ != key {
        lemma_entry_of_bounds(keys, key, i + 1);
    }
}

/// The counts that a baseline's entries start with.
pub open spec fn entry_counts(entries: Seq<(String, u64)>) -> Seq<u64> {
    entries.map_values(|e: (String, u64)| e.1)
}

/// The offset of the first entry for `key`.
fn find_entry(entries: &Vec<(String, u64)>, key: &String) -> (found: Option<usize>)
    ensures
        match found {
            Some(j) => entry_of(entries@, key@, 0) == Some(j as int),
            None => entry_of(entries@, key@, 0) is None,
        },
{
    let mut j: usize = 0;
    while j < entries.len()
        invariant
            j <= entries@.len(),
            entry_of(entries@, key@, 0) == entry_of(entries@, key@, j as int),
        decreases entries@.len() - j,
    {
        if entries[j].0 == *key {
            return Some(j);
        }
        j = j + 1;
    }
    None
}

/// Marks which findings a baseline keeps: each fingerprint that names an entry
/// uses up one of its count and drops its finding, until the count runs out.
pub fn suppress(fingerprints: &Vec<String>, entries: &Vec<(String, u64)>) -> (kept: Vec<bool>)
    ensures
        kept@ == kept_findings(texts(fingerprints@), entries@, entry_counts(entries@)),
{
    let ghost all = texts(fingerprints@);
    let mut left: Vec<u64> = Vec::new();
    let mut q: usize = 0;
    while q < entries.len()
        invariant
            q <= entries@.len(),
            left@ == entry_counts(entries@).take(q as int),
        decreases entries@.len() - q,
    {
        left.push(entries[q].1);
        proof {
            assert(entry_counts(entries@).take(q + 1) =~= entry_counts(entries@).take(q as int).push(
                entries@[q as int].1,
            ));
        }
        q = q + 1;
    }
    let mut kept: Vec<bool> = Vec::new();
    proof {
        assert(entry_counts(entries@).take(q as int) =~= entry_counts(entries@));
        assert(all.skip(0) =~= all);
        assert(kept@ + kept_findings(all, entries@, left@) =~= kept_findings(all, entries@, left@));
    }
    let mut i: usize = 0;
    while i < fingerprints.len()
        invariant
            i <= fingerprints@.len(),
            all == texts(fingerprints@),
            left@.len() == entries@.len(),
            kept@ + kept_findings(all.skip(i as int), entries@, left@) == kept_findings(
                all,
                entries@,
                entry_counts(entries@),
            ),
        decreases fingerprints@.len() - i,
    {
        let ghost rest = all.skip(i as int);
        let ghost before = left@;
        proof {
            assert(rest[0] == fingerprints@[i as int]@);
            assert(rest.drop_first() =~= all.skip(i + 1));
        }
        let found = find_entry(entries, &fingerprints[i]);
        proof {
            lemma_entry_of_bounds(entries@, fingerprints@[i as int]@, 0);
        }
        let mut take = false;
        match found {
            Some(j) => {
                if left[j] > 0 {
                    let n = left[j] - 1;
                    left.set(j, n);
                    take = true;
                }
            },
            None => {},
        }
        kept.push(!take);
        proof {
            assert(kept@ + kept_findings(all.skip(i + 1), entries@, left@) =~= kept@.drop_last() + (
            seq![!take] + kept_findings(all.skip(i + 1), entries@, left@)));
            assert(kept_findings(rest, entries@, before) == seq![!take] + kept_findings(
                all.skip(i + 1),
                entries@,
                left@,
            ));
        }
        i = i + 1;
    }
    proof {
        assert(kept_findings(all.skip(i as int), entries@, left@) =~= Seq::empty());
        assert(kept@ + Seq::<bool>::empty() =~= kept@);
    }
    kept
}

/// The largest baseline file that is read: 32 MiB.
pub const BASELINE_LIMIT: u64 = 33554432;

/// Refuses a baseline file larger than [`BASELINE_LIMIT`] bytes.
pub fn check_baseline_size(len: u64) -> (result: Result<(), String>)
    ensures
        result is Ok <==> len <= BASELINE_LIMIT,
        result matches Err(message) ==> message@ == "baseline exceeds 32 MiB"@,
{
    if len > BASELINE_LIMIT {
        return Err(String::from_str("baseline exceeds 32 MiB"));
    }
    Ok(())
}

/// Checks that a baseline was written by this schema and version for the same
/// Cargo coverage as the current check.
pub fn check_baseline_header(
    schema: Option<u64>,
    version: Option<&str>,
    expected_version: &str,
    same_coverage: bool,
) -> (result: Result<(), String>)
    ensures
        result is Ok <==> (schema == Some(1u64) && version is Some && version->0@ == expected_version@
            && same_coverage),
        result matches Err(message) ==> message@
            == "baseline schema, version, or Cargo coverage does not match this check"@,
{
    let same_version = match version {
        Some(v) => same_text(v, expected_version),
        None => false,
    };
    if !(schema == Some(1u64) && same_version && same_coverage) {
        return Err(String::from_str("baseline schema, version, or Cargo coverage does not match this check"));
    }
    Ok(())
}

/// A finding's fingerprint depends only on its file, rule, message, text and
/// neighbouring non-blank lines: edits elsewhere in a file leave it unchanged.
pub proof fn lemma_fingerprint_local(
    file: Seq<char>,
    rule: Seq<char>,
    message: Seq<char>,
    a: Seq<u8>,
    a_start: int,
    a_end: int,
    b: Seq<u8>,
    b_start: int,
    b_end: int,
)
    requires
        previous_line(a.subrange(0, a_start)) == previous_line(b.subrange(0, b_start)),
        trim(a.subrange(a_start, a_end)) == trim(b.subrange(b_start, b_end)),
        next_line_from(a.subrange(a_end, a.len() as int), 0) == next_line_from(
            b.subrange(b_end, b.len() as int),
            0,
        ),
    ensures
        finding_anchor(file, rule, message, a, a_start, a_end) == finding_anchor(
            file,
            rule,
            message,
            b,
            b_start,
            b_end,
        ),
{
}

/// A text occurs in a sequence once more at its front than in the rest.
proof fn lemma_occurrences_front(texts: Seq<Seq<char>>, key: Seq<char>)
    requires
        texts.len() > 0,
    ensures
        occurrences(texts, key) == occurrences(texts.drop_first(), key) + if texts[0] == key {
            1nat
        } else {
            0nat
        },
    decreases texts.len(),
{
    if texts.len() > 1 {
        lemma_occurrences_front(texts.drop_last(), key);
        assert(texts.drop_last().drop_first() =~= texts.drop_first().drop_last());
        assert(texts.drop_first().last() == texts.last());
        assert(texts.drop_last()[0] == texts[0]);
        assert(occurrences(texts.drop_first(), key) == occurrences(texts.drop_first().drop_last(), key)
            + if texts.drop_first().last() == key {
            1nat
        } else {
            0nat
        });
        assert(occurrences(texts, key) == occurrences(texts.drop_last(), key) + if texts.last() == key {
            1nat
        } else {
            0nat
        });
    } else {
        assert(texts.drop_first().len() == 0);
        assert(texts.drop_last().len() == 0);
        assert(texts.last() == texts[0]);
        assert(occurrences(texts.drop_last(), key) == 0);
        assert(occurrences(texts.drop_first(), key) == 0);
    }
}

/// Whether some entry of a baseline names `key`.
pub open spec fn has_entry(entries: Seq<(String, u64)>, key: Seq<char>) -> bool {
    exists|i: int| 0 <= i < entries.len() && #[trigger] entries[i].0@ == key
}

/// Whether no two entries of a baseline name the same fingerprint.
pub open spec fn distinct_entries(entries: Seq<(String, u64)>) -> bool {
    forall|i: int, j: int| 0 <= i < j < entries.len() ==> #[trigger] entries[i].0@ != #[trigger] entries[j].0@
}

/// The entry found for a key of distinct entries is the one with that key.
proof fn lemma_entry_of_distinct(entries: Seq<(String, u64)>, key: Seq<char>, i: int, j: int)
    requires
        distinct_entries(entries),
        0 <= i <= j < entries.len(),
        entries[j].0@ == key,
    ensures
        entry_of(entries, key, i) == Some(j),
    decreases j - i,
{
    if i < j {
        assert(entries[i].0@ != entries[j].0@);
        lemma_entry_of_distinct(entries, key, i + 1, j);
    }
}

/// With uses left that count each fingerprint's occurrences among the findings,
/// a baseline drops every finding.
proof fn lemma_counted_baseline_drops_all(
    fingerprints: Seq<Seq<char>>,
    entries: Seq<(String, u64)>,
    left: Seq<u64>,
)
    requires
        distinct_entries(entries),
        left.len() == entries.len(),
        forall|i: int| 0 <= i < entries.len() ==> #[trigger] left[i] == occurrences(fingerprints, entries[i].0@),
        forall|k: int| 0 <= k < fingerprints.len() ==> has_entry(entries, #[trigger] fingerprints[k]),
    ensures
        kept_findings(fingerprints, entries, left) == Seq::new(fingerprints.len(), |i: int| false),
    decreases fingerprints.len(),
{
    if fingerprints.len() == 0 {
        assert(kept_findings(fingerprints, entries, left) =~= Seq::new(0, |i: int| false));
    } else {
        let key = fingerprints[0];
        assert(has_entry(entries, fingerprints[0]));
        let j = choose|i: int| 0 <= i < entries.len() && #[trigger] entries[i].0@ == fingerprints[0];
        lemma_entry_of_distinct(entries, key, 0, j);
        let rest = fingerprints.drop_first();
        lemma_occurrences_front(fingerprints, key);
        assert(left[j] > 0);
        let next = left.update(j, (left[j] - 1) as u64);
        assert forall|i: int| 0 <= i < entries.len() implies #[trigger] next[i] == occurrences(rest, entries[i].0@) by {
            lemma_occurrences_front(fingerprints, entries[i].0@);
        }
        assert forall|k: int| 0 <= k < rest.len() implies has_entry(entries, #[trigger] rest[k]) by {
            assert(rest[k] == fingerprints[k + 1]);
            assert(has_entry(entries, fingerprints[k + 1]));
        }
        lemma_counted_baseline_drops_all(rest, entries, next);
        assert(kept_findings(fingerprints, entries, left) =~= Seq::new(fingerprints.len(), |i: int| false));
    }
}

/// A baseline written from some findings, one entry per distinct fingerprint
/// with the number of times it occurs, suppresses every one of those findings.
pub proof fn lemma_written_baseline_suppresses_all(fingerprints: Seq<String>, entries: Seq<(String, u64)>)
    requires
        distinct_entries(entries),
        forall|i: int| 0 <= i < entries.len() ==> #[trigger] entries[i].1 == occurrences(texts(fingerprints), entries[i].0@),
        forall|k: int| 0 <= k < fingerprints.len() ==> has_entry(entries, #[trigger] fingerprints[k]@),
    ensures
        kept_findings(texts(fingerprints), entries, entry_counts(entries)) == Seq::new(
            fingerprints.len(),
            |i: int| false,
        ),
{
    let all = texts(fingerprints);
    assert forall|k: int| 0 <= k < all.len() implies has_entry(entries, #[trigger] all[k]) by {
        assert(all[k] == fingerprints[k]@);
        assert(has_entry(entries, fingerprints[k]@));
    }
    assert forall|i: int| 0 <= i < entries.len() implies #[trigger] entry_counts(entries)[i] == occurrences(all, entries[i].0@) by {
        assert(entry_counts(entries)[i] == entries[i].1);
    }
    lemma_counted_baseline_drops_all(all, entries, entry_counts(entries));
}

/// A baseline file, as far as a run reads it.
pub struct BaselineDocument {
    /// The `schema` field, where it is an unsigned integer.
    pub schema: Option<u64>,
    /// The `version` field, where it is text.
    pub version: Option<String>,
    /// Whether the `coverage` field is present and equals the run's coverage.
    pub same_coverage: bool,
    /// The entries of the `findings` object, each count where it is an
    /// unsigned integer; nothing where `findings` is no object.
    pub findings: Option<Vec<(String, Option<u64>)>>,
}

/// Whether `d` is the baseline that the JSON value `v` describes, read
/// against the run's coverage `coverage`.
pub open spec fn reads_baseline(v: JsonValue, coverage: JsonValue, d: BaselineDocument) -> bool {
    &&& d.schema == as_unsigned(field(v, "schema"@))
    &&& text_view(d.version) == as_text(field(v, "version"@))
    &&& d.same_coverage == (field(v, "coverage"@) matches Some(c) && json_same(c, coverage))
    &&& match field(v, "findings"@) {
        Some(JsonValue::Object(entries)) => d.findings matches Some(listed) && listed@.len() == entries@.len()
            && forall|i: int|
            0 <= i < entries@.len() ==> (#[trigger] listed@[i]).0@ == entries@[i].0@ && listed@[i].1
                == as_unsigned(Some(entries@[i].1)),
        _ => d.findings is None,
    }
}

/// Parses a baseline file's bytes and reads it against the run's coverage; the
/// parser's error where they are no JSON.
pub fn read_baseline(bytes: &[u8], coverage: &JsonValue) -> (document: Result<BaselineDocument, String>)
    ensures
        match json_of_bytes(bytes@) {
            Ok(v) => document matches Ok(d) && reads_baseline(v, *coverage, d),
            Err(e) => document matches Err(m) && m@ == e,
        },
{
    let v = match parse_json_bytes(bytes) {
        Ok(v) => v,
        Err(e) => return Err(e),
    };
    let same_coverage = match get(&v, "coverage") {
        Some(c) => same_json(c, coverage),
        None => false,
    };
    let findings = match get(&v, "findings") {
        Some(JsonValue::Object(entries)) => {
            let mut listed: Vec<(String, Option<u64>)> = Vec::new();
            let mut i: usize = 0;
            while i < entries.len()
                invariant
                    i <= entries@.len(),
                    listed@.len() == i,
                    forall|m: int|
                        0 <= m < i ==> (#[trigger] listed@[m]).0@ == entries@[m].0@ && listed@[m].1
                            == as_unsigned(Some(entries@[m].1)),
                decreases entries@.len() - i,
            {
                listed.push((String::from_str(entries[i].0.as_str()), unsigned_at(Some(&entries[i].1))));
                i = i + 1;
            }
            Some(listed)
        },
        _ => None,
    };
    Ok(
        BaselineDocument {
            schema: unsigned_at(get(&v, "schema")),
            version: text_at(get(&v, "version")),
            same_coverage,
            findings,
        },
    )
}


} // verus!
