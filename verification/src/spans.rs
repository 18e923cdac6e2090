//! Offsets between the compiler's spans, counted from the start of its
//! source map, and a file's normalized text, and the check that the text on
//! disk is the one the compiler saw.
use vstd::prelude::*;
use vstd::string::StringExecFns;
use vstd::utf8::encode_utf8;

use crate::model::ByteRange;
use crate::syntax::tree::same_text;
use crate::text::SourceText;

verus! {

/// The range within a file's normalized text of a span from `lo` to `hi`,
/// for a file that starts at `start`: both offsets must lie at or after the
/// file's start, in order, and within the text's `length` bytes.
pub fn normalized_range(start: u32, lo: u32, hi: u32, length: usize) -> (range: Option<ByteRange>)
    ensures
        range is Some <==> (start <= lo && start <= hi && lo <= hi && hi - start <= length),
        range matches Some(r) ==> r.start == lo - start && r.end == hi - start,
{
    if lo < start || hi < start {
        return None;
    }
    let a = (lo - start) as usize;
    let b = (hi - start) as usize;
    if a <= b && b <= length {
        Some(ByteRange::new(a, b))
    } else {
        None
    }
}

/// The compiler offsets of a range of a file that starts at `start`, when
/// both fit the compiler's 32-bit offsets.
pub fn source_span(start: u32, range: ByteRange) -> (offsets: Option<(u32, u32)>)
    ensures
        offsets is Some <==> (range.start + start <= u32::MAX && range.end + start <= u32::MAX),
        offsets matches Some((lo, hi)) ==> lo == range.start + start && hi == range.end + start,
{
    if range.start > 0xffff_ffffusize || range.end > 0xffff_ffffusize {
        return None;
    }
    let lo = (range.start as u32).checked_add(start);
    let hi = (range.end as u32).checked_add(start);
    match (lo, hi) {
        (Some(lo), Some(hi)) => Some((lo, hi)),
        _ => None,
    }
}

/// The text of a file read from disk, checked against the source the
/// compiler saw: their normalized texts must agree, and the file must not
/// mix newline styles.
pub fn read_source(raw: String, compiler_source: &str) -> (result: Result<SourceText, String>)
    requires
        encode_utf8(raw@).len() < usize::MAX,
    ensures
        match result {
            Ok(text) => text.raw_text() == raw@ && text.normalized_text() == compiler_source@ && !text.mixed()
                && text.well_formed() && encode_utf8(compiler_source@) == crate::text::normalized_bytes(
                encode_utf8(raw@),
            ) && !(crate::text::has_crlf_from(encode_utf8(raw@), crate::text::content_start(encode_utf8(raw@)))
                && crate::text::has_bare_lf_from(encode_utf8(raw@), crate::text::content_start(encode_utf8(raw@)))),
            Err(message) => {
                ||| (message@ == "on-disk source differs from rustc's source snapshot"@
                    && encode_utf8(compiler_source@) != crate::text::normalized_bytes(encode_utf8(raw@)))
                ||| (message@ == "mixed newline styles: run the project's formatter first"@
                    && encode_utf8(compiler_source@) == crate::text::normalized_bytes(encode_utf8(raw@))
                    && crate::text::has_crlf_from(encode_utf8(raw@), crate::text::content_start(encode_utf8(raw@)))
                    && crate::text::has_bare_lf_from(encode_utf8(raw@), crate::text::content_start(encode_utf8(raw@))))
            },
        },
{
    let text = SourceText::new(raw);
    if !same_text(text.normalized_str(), compiler_source) {
        proof {
            if encode_utf8(compiler_source@) == encode_utf8(text.normalized_text()) {
                vstd::utf8::encode_utf8_decode_utf8(compiler_source@);
                vstd::utf8::encode_utf8_decode_utf8(text.normalized_text());
            }
        }
        return Err(String::from_str("on-disk source differs from rustc's source snapshot"));
    }
    if text.has_mixed_newlines() {
        return Err(String::from_str("mixed newline styles: run the project's formatter first"));
    }
    Ok(text)
}

} // verus!
