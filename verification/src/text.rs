//! Explicit raw-file <-> compiler-normalized byte offsets, including CRLF and BOM.
use vstd::prelude::*;
use vstd::utf8::*;

use crate::slices::{char_range, lemma_encode_concat, push_text, substring};

verus! {

/// Whether the bytes begin with the UTF-8 byte-order mark.
pub open spec fn has_bom(bytes: Seq<u8>) -> bool {
    bytes.len() >= 3 && bytes[0] == 0xEF && bytes[1] == 0xBB && bytes[2] == 0xBF
}

/// The offset at which normalization starts: after a byte-order mark, if any.
pub open spec fn content_start(bytes: Seq<u8>) -> int {
    if has_bom(bytes) {
        3
    } else {
        0
    }
}

/// Whether a CRLF pair starts at offset `i`.
pub open spec fn crlf_at(bytes: Seq<u8>, i: int) -> bool {
    0 <= i && i + 1 < bytes.len() && bytes[i] == 13 && bytes[i + 1] == 10
}

/// The length of the raw text consumed by one normalized byte at offset `i`.
pub open spec fn step(bytes: Seq<u8>, i: int) -> int {
    if crlf_at(bytes, i) {
        2
    } else {
        1
    }
}

/// Normalized bytes of `bytes` from offset `i`: each CRLF becomes LF.
pub open spec fn normalize_from(bytes: Seq<u8>, i: int) -> Seq<u8>
    decreases bytes.len() - i,
{
    if i < 0 || i >= bytes.len() {
        Seq::empty()
    } else if crlf_at(bytes, i) {
        seq![10u8] + normalize_from(bytes, i + 2)
    } else {
        seq![bytes[i]] + normalize_from(bytes, i + 1)
    }
}

/// Raw offsets of the normalized bytes from offset `i`, followed by the raw length.
pub open spec fn offsets_from(bytes: Seq<u8>, i: int) -> Seq<usize>
    decreases bytes.len() - i,
{
    if i < 0 || i >= bytes.len() {
        seq![bytes.len() as usize]
    } else {
        seq![i as usize] + offsets_from(bytes, i + step(bytes, i))
    }
}

/// Whether a CRLF pair occurs at or after offset `i`, scanning normalized units.
pub open spec fn has_crlf_from(bytes: Seq<u8>, i: int) -> bool
    decreases bytes.len() - i,
{
    if i < 0 || i >= bytes.len() {
        false
    } else {
        crlf_at(bytes, i) || has_crlf_from(bytes, i + step(bytes, i))
    }
}

/// Whether a bare LF occurs at or after offset `i`, scanning normalized units.
pub open spec fn has_bare_lf_from(bytes: Seq<u8>, i: int) -> bool
    decreases bytes.len() - i,
{
    if i < 0 || i >= bytes.len() {
        false
    } else {
        (!crlf_at(bytes, i) && bytes[i] == 10) || has_bare_lf_from(bytes, i + step(bytes, i))
    }
}

/// Normalized text: byte-order mark removed and CRLF converted to LF.
pub open spec fn normalized_bytes(raw: Seq<u8>) -> Seq<u8> {
    normalize_from(raw, content_start(raw))
}

/// For each normalized byte its raw offset, then the raw length.
pub open spec fn raw_offsets(raw: Seq<u8>) -> Seq<usize> {
    offsets_from(raw, content_start(raw))
}

/// Expands each LF into CRLF.
pub open spec fn crlf_expand(bytes: Seq<u8>) -> Seq<u8>
    decreases bytes.len(),
{
    if bytes.len() == 0 {
        Seq::empty()
    } else if bytes.last() == 10 {
        crlf_expand(bytes.drop_last()) + seq![13u8, 10u8]
    } else {
        crlf_expand(bytes.drop_last()).push(bytes.last())
    }
}

/// Raw source and normalized UTF-8 with a byte-offset translation table.
#[derive(Clone, Debug)]
pub struct SourceText {
    /// Original file contents, including any BOM and CRLF newlines.
    raw: String,
    /// Source with an initial BOM removed and CRLF converted to LF.
    normalized: String,
    /// Whether all observed line endings are CRLF.
    crlf: bool,
    /// Whether the input mixes CRLF and bare LF line endings.
    mixed_newlines: bool,
    normalized_to_raw: Vec<usize>,
}

impl SourceText {
    /// The translation table: raw offsets of normalized bytes, then the raw length.
    pub closed spec fn offset_table(&self) -> Seq<usize> {
        self.normalized_to_raw@
    }

    /// The original file contents.
    pub closed spec fn raw_text(&self) -> Seq<char> {
        self.raw@
    }

    /// The normalized text.
    pub closed spec fn normalized_text(&self) -> Seq<char> {
        self.normalized@
    }

    /// Whether all observed line endings are CRLF.
    pub closed spec fn uniform_crlf(&self) -> bool {
        self.crlf
    }

    /// Whether CRLF and bare LF line endings are mixed.
    pub closed spec fn mixed(&self) -> bool {
        self.mixed_newlines
    }

    /// The translation table is strictly increasing.
    pub open spec fn well_formed(&self) -> bool {
        forall|a: int, b: int|
            0 <= a < b < self.offset_table().len() ==> #[trigger] self.offset_table()[a]
                < #[trigger] self.offset_table()[b]
    }
}

/// The offsets from `i` on are strictly increasing and at least `i`.
proof fn lemma_offsets_increasing(bytes: Seq<u8>, i: int)
    requires
        0 <= i <= bytes.len(),
        bytes.len() <= usize::MAX,
    ensures
        forall|a: int, b: int|
            0 <= a < b < offsets_from(bytes, i).len() ==> #[trigger] offsets_from(bytes, i)[a]
                < #[trigger] offsets_from(bytes, i)[b],
        forall|a: int|
            0 <= a < offsets_from(bytes, i).len() ==> i <= #[trigger] offsets_from(bytes, i)[a]
                <= bytes.len(),
        offsets_from(bytes, i).len() >= 1,
        offsets_from(bytes, i).last() == bytes.len(),
    decreases bytes.len() - i,
{
    if i < bytes.len() {
        let next = i + step(bytes, i);
        lemma_offsets_increasing(bytes, next);
        let rest = offsets_from(bytes, next);
        let all = offsets_from(bytes, i);
        assert(all == seq![i as usize] + rest);
        assert forall|a: int, b: int| 0 <= a < b < all.len() implies #[trigger] all[a]
            < #[trigger] all[b] by {
            if a == 0 {
                assert(all[b] == rest[b - 1]);
            } else {
                assert(all[a] == rest[a - 1]);
                assert(all[b] == rest[b - 1]);
            }
        }
        assert forall|a: int| 0 <= a < all.len() implies i <= #[trigger] all[a] <= bytes.len() by {
            if a > 0 {
                assert(all[a] == rest[a - 1]);
            }
        }
        assert(all.last() == rest.last());
    }
}

/// The offsets and normalized bytes from `i` correspond one to one.
proof fn lemma_offsets_len(bytes: Seq<u8>, i: int)
    requires
        0 <= i <= bytes.len(),
    ensures
        offsets_from(bytes, i).len() == normalize_from(bytes, i).len() + 1,
    decreases bytes.len() - i,
{
    if i < bytes.len() {
        lemma_offsets_len(bytes, i + step(bytes, i));
    }
}

/// The byte-order mark is one character, so its end is a character boundary.
proof fn lemma_bom_boundary(bytes: Seq<u8>)
    requires
        valid_utf8(bytes),
        has_bom(bytes),
    ensures
        is_char_boundary(bytes, 3),
{
    let b0 = bytes[0];
    assert(is_leading_byte_width_3(b0)) by (bit_vector)
        requires
            b0 == 0xEF,
    ;
    assert(!is_leading_byte_width_1(b0) && !is_leading_byte_width_2(b0)) by (bit_vector)
        requires
            b0 == 0xEF,
    ;
    assert(length_of_first_scalar(bytes) == 3);
    reveal_with_fuel(is_char_boundary, 2);
    assert(is_char_boundary(pop_first_scalar(bytes), 0));
}

/// An ASCII byte of a valid sequence starts a character, and so does the next offset.
pub proof fn lemma_ascii_split(bytes: Seq<u8>, i: int)
    requires
        valid_utf8(bytes),
        0 <= i < bytes.len(),
        bytes[i] < 128,
    ensures
        is_char_boundary(bytes, i),
        is_char_boundary(bytes, i + 1),
{
    let byte = bytes[i];
    is_char_boundary_iff_not_is_continuation_byte(bytes, i);
    assert(!is_continuation_byte(byte)) by (bit_vector)
        requires
            byte < 128,
    ;
    if i + 1 == bytes.len() {
        is_char_boundary_start_end_of_seq(bytes);
    } else {
        valid_utf8_split(bytes, i);
        let rest = bytes.subrange(i, bytes.len() as int);
        assert(rest[0] == byte);
        assert(is_leading_byte_width_1(byte)) by (bit_vector)
            requires
                byte < 128,
        ;
        assert(length_of_first_scalar(rest) == 1);
        reveal_with_fuel(is_char_boundary, 2);
        assert(is_char_boundary(pop_first_scalar(rest), 0));
        assert(is_char_boundary(rest, 1));
        is_char_boundary_iff_not_is_continuation_byte(rest, 1);
        is_char_boundary_iff_not_is_continuation_byte(bytes, i + 1);
        assert(rest[1] == bytes[i + 1]);
    }
}

impl SourceText {
    /// Normalizes line endings and records the corresponding raw byte offsets.
    pub fn new(raw: String) -> (text: Self)
        requires
            encode_utf8(raw@).len() < usize::MAX,
        ensures
            text.raw_text() == raw@,
            encode_utf8(text.normalized_text()) == normalized_bytes(encode_utf8(raw@)),
            text.offset_table() == raw_offsets(encode_utf8(raw@)),
            text.uniform_crlf() == (has_crlf_from(encode_utf8(raw@), content_start(encode_utf8(raw@)))
                && !has_bare_lf_from(encode_utf8(raw@), content_start(encode_utf8(raw@)))),
            text.mixed() == (has_crlf_from(
                encode_utf8(raw@),
                content_start(encode_utf8(raw@)),
            ) && has_bare_lf_from(encode_utf8(raw@), content_start(encode_utf8(raw@)))),
            text.well_formed(),
            text.offset_table().len() == encode_utf8(text.normalized_text()).len() + 1,
            text.offset_table()[text.offset_table().len() - 1] == encode_utf8(raw@).len(),
    {
        let ghost bytes = encode_utf8(raw@);
        let source = raw.as_str();
        let b = source.as_bytes();
        let length = b.len();
        let start: usize = if length >= 3 && b[0] == 0xEF && b[1] == 0xBB && b[2] == 0xBF {
            3
        } else {
            0
        };
        proof {
            encode_utf8_valid_utf8(raw@);
            is_char_boundary_start_end_of_seq(bytes);
            if start == 3 {
                lemma_bom_boundary(bytes);
            }
        }
        let mut map: Vec<usize> = Vec::new();
        let mut normalized = String::new();
        let mut segment: usize = start;
        let mut i: usize = start;
        let mut saw_crlf = false;
        let mut saw_lf = false;
        while i < length
            invariant
                b@ == bytes,
                bytes == encode_utf8(raw@),
                source@ == raw@,
                length == bytes.len(),
                length < usize::MAX,
                valid_utf8(bytes),
                start as int == content_start(bytes),
                start <= segment <= i <= length,
                char_range(bytes, segment as int, segment as int),
                map@ + offsets_from(bytes, i as int) == raw_offsets(bytes),
                encode_utf8(normalized@) + bytes.subrange(segment as int, i as int)
                    + normalize_from(bytes, i as int) == normalized_bytes(bytes),
                (saw_crlf || has_crlf_from(bytes, i as int)) == has_crlf_from(
                    bytes,
                    start as int,
                ),
                (saw_lf || has_bare_lf_from(bytes, i as int)) == has_bare_lf_from(
                    bytes,
                    start as int,
                ),
            decreases length - i,
        {
            map.push(i);
            let ghost seen = encode_utf8(normalized@);
            if b[i] == 13 && i + 1 < length && b[i + 1] == 10 {
                proof {
                    lemma_ascii_split(bytes, i as int);
                }
                let piece = substring(source, segment, i);
                push_text(&mut normalized, piece);
                proof {
                    assert(bytes.subrange(segment as int, i as int) + seq![10u8]
                        + normalize_from(bytes, i as int + 2) =~= bytes.subrange(
                        segment as int,
                        i as int,
                    ) + bytes.subrange(i as int + 1, i as int + 2) + normalize_from(
                        bytes,
                        i as int + 2,
                    ));
                    assert(seen + bytes.subrange(segment as int, i as int) + (bytes.subrange(
                        i as int + 1,
                        i as int + 2,
                    ) + normalize_from(bytes, i as int + 2)) =~= encode_utf8(normalized@)
                        + bytes.subrange(i as int + 1, i as int + 2) + normalize_from(
                        bytes,
                        i as int + 2,
                    ));
                }
                segment = i + 1;
                i = i + 2;
                saw_crlf = true;
            } else {
                if b[i] == 10 {
                    saw_lf = true;
                }
                proof {
                    assert(bytes.subrange(segment as int, i as int) + (seq![bytes[i as int]]
                        + normalize_from(bytes, i as int + 1)) =~= bytes.subrange(
                        segment as int,
                        i as int + 1,
                    ) + normalize_from(bytes, i as int + 1));
                }
                i = i + 1;
            }
            proof {
                assert(map@ + offsets_from(bytes, i as int) =~= raw_offsets(bytes));
            }
        }
        map.push(length);
        proof {
            assert(map@ =~= raw_offsets(bytes));
        }
        let piece = substring(source, segment, length);
        push_text(&mut normalized, piece);
        proof {
            assert(encode_utf8(normalized@) =~= normalized_bytes(bytes));
            lemma_offsets_increasing(bytes, start as int);
            lemma_offsets_len(bytes, start as int);
        }
        SourceText {
            raw,
            normalized,
            crlf: saw_crlf && !saw_lf,
            mixed_newlines: saw_crlf && saw_lf,
            normalized_to_raw: map,
        }
    }

    /// The normalized text.
    pub fn normalized_str(&self) -> (text: &str)
        ensures
            text@ == self.normalized_text(),
    {
        self.normalized.as_str()
    }

    /// The original file contents.
    pub fn raw_str(&self) -> (text: &str)
        ensures
            text@ == self.raw_text(),
    {
        self.raw.as_str()
    }

    /// Whether all observed line endings are CRLF.
    pub fn uses_crlf(&self) -> (crlf: bool)
        ensures
            crlf == self.uniform_crlf(),
    {
        self.crlf
    }

    /// Whether the input mixes CRLF and bare LF line endings.
    pub fn has_mixed_newlines(&self) -> (mixed: bool)
        ensures
            mixed == self.mixed(),
    {
        self.mixed_newlines
    }

    /// Maps a normalized byte offset to raw source, or returns `None` beyond EOF.
    pub fn raw_offset(&self, normalized: usize) -> (raw: Option<usize>)
        ensures
            raw == (if normalized < self.offset_table().len() {
                Some(self.offset_table()[normalized as int])
            } else {
                None::<usize>
            }),
    {
        if normalized < self.normalized_to_raw.len() {
            Some(self.normalized_to_raw[normalized])
        } else {
            None
        }
    }

    /// Maps a raw offset, returning `None` for removed bytes or offsets beyond EOF.
    pub fn normalized_offset(&self, raw: usize) -> (normalized: Option<usize>)
        requires
            self.well_formed(),
        ensures
            normalized matches Some(n) ==> n < self.offset_table().len()
                && self.offset_table()[n as int] == raw,
            normalized is None ==> !self.offset_table().contains(raw),
    {
        let table = &self.normalized_to_raw;
        let mut low: usize = 0;
        let mut high: usize = table.len();
        while low < high
            invariant
                low <= high <= table@.len(),
                table@ == self.offset_table(),
                self.well_formed(),
                forall|k: int| 0 <= k < low ==> #[trigger] table@[k] < raw,
                forall|k: int| high <= k < table@.len() ==> #[trigger] table@[k] > raw,
            decreases high - low,
        {
            let middle = low + (high - low) / 2;
            let value = table[middle];
            if value == raw {
                return Some(middle);
            } else if value < raw {
                assert forall|k: int| 0 <= k <= middle implies #[trigger] table@[k] < raw by {
                    if k < middle {
                        assert(table@[k] < table@[middle as int]);
                    }
                }
                low = middle + 1;
            } else {
                assert forall|k: int| middle <= k < table@.len() implies #[trigger] table@[k]
                    > raw by {
                    if k > middle {
                        assert(table@[middle as int] < table@[k]);
                    }
                }
                high = middle;
            }
        }
        proof {
            if table@.contains(raw) {
                let k = choose|k: int| 0 <= k < table@.len() && table@[k] == raw;
                assert(table@[k] == raw);
            }
        }
        None
    }

    /// Converts LF replacements to CRLF only when the input uses uniform CRLF.
    pub fn original_newlines(&self, replacement: &str) -> (text: String)
        ensures
            encode_utf8(text@) == (if self.uniform_crlf() {
                crlf_expand(encode_utf8(replacement@))
            } else {
                encode_utf8(replacement@)
            }),
    {
        if !self.crlf {
            let mut copy = String::new();
            push_text(&mut copy, replacement);
            return copy;
        }
        let ghost bytes = encode_utf8(replacement@);
        let b = replacement.as_bytes();
        let mut result = String::new();
        let mut segment: usize = 0;
        let mut i: usize = 0;
        proof {
            encode_utf8_valid_utf8(replacement@);
            is_char_boundary_start_end_of_seq(bytes);
            assert(encode_utf8(result@) =~= crlf_expand(bytes.subrange(0, 0)));
        }
        proof {
            lemma_crlf_literal();
        }
        while i < b.len()
            invariant
                b@ == bytes,
                bytes == encode_utf8(replacement@),
                encode_utf8("\r\n"@) == seq![13u8, 10u8],
                valid_utf8(bytes),
                segment <= i <= bytes.len(),
                char_range(bytes, segment as int, segment as int),
                forall|k: int| segment <= k < i ==> #[trigger] bytes[k] != 10,
                encode_utf8(result@) == crlf_expand(bytes.subrange(0, segment as int)),
            decreases bytes.len() - i,
        {
            if b[i] == 10 {
                proof {
                    lemma_ascii_split(bytes, i as int);
                    lemma_expand_plain(bytes, segment as int, i as int);
                }
                let ghost before = encode_utf8(result@);
                let piece = substring(replacement, segment, i);
                push_text(&mut result, piece);
                push_text(&mut result, "\r\n");
                proof {
                    let upto = bytes.subrange(0, i as int + 1);
                    assert(upto.drop_last() =~= bytes.subrange(0, i as int));
                    assert(upto.last() == 10);
                    assert(crlf_expand(upto) == crlf_expand(bytes.subrange(0, i as int)) + seq![
                        13u8,
                        10u8,
                    ]);
                    assert(encode_utf8(result@) == before + bytes.subrange(segment as int, i as int)
                        + seq![13u8, 10u8]);
                    assert(encode_utf8(result@) =~= crlf_expand(upto));
                }
                segment = i + 1;
            }
            i = i + 1;
        }
        proof {
            lemma_expand_plain(bytes, segment as int, bytes.len() as int);
        }
        let piece = substring(replacement, segment, b.len());
        push_text(&mut result, piece);
        proof {
            assert(bytes.subrange(0, bytes.len() as int) =~= bytes);
        }
        result
    }
}

/// The encoding of the CRLF literal.
proof fn lemma_crlf_literal()
    ensures
        encode_utf8("\r\n"@) == seq![13u8, 10u8],
{
    reveal_strlit("\r\n");
    let line = "\r\n"@;
    assert(line =~= seq!['\r', '\n']);
    let c: u32 = 13;
    let d: u32 = 10;
    assert((c & 0x7F) as u8 == 13u8 && (d & 0x7F) as u8 == 10u8) by (bit_vector)
        requires
            c == 13,
            d == 10,
    ;
    assert(('\r' as u32) == 13 && ('\n' as u32) == 10);
    assert(line.drop_first().drop_first() =~= Seq::<char>::empty());
    assert(encode_utf8(line.drop_first()) =~= encode_scalar(10u32) + encode_utf8(
        line.drop_first().drop_first(),
    ));
    assert(encode_utf8(line) =~= encode_scalar(13u32) + encode_utf8(line.drop_first()));
}

/// Expanding a prefix extended by bytes without LF appends those bytes unchanged.
proof fn lemma_expand_plain(bytes: Seq<u8>, segment: int, end: int)
    requires
        0 <= segment <= end <= bytes.len(),
        forall|k: int| segment <= k < end ==> #[trigger] bytes[k] != 10,
    ensures
        crlf_expand(bytes.subrange(0, end)) == crlf_expand(bytes.subrange(0, segment))
            + bytes.subrange(segment, end),
    decreases end - segment,
{
    if end > segment {
        lemma_expand_plain(bytes, segment, end - 1);
        let upto = bytes.subrange(0, end);
        assert(upto.drop_last() =~= bytes.subrange(0, end - 1));
        assert(upto.last() == bytes[end - 1]);
        assert(bytes.subrange(segment, end - 1).push(bytes[end - 1]) =~= bytes.subrange(
            segment,
            end,
        ));
    } else {
        assert(bytes.subrange(segment, end) =~= Seq::<u8>::empty());
    }
}

/// Translating a normalized offset to raw source and back returns it.
pub proof fn lemma_offset_round_trip(text: SourceText, normalized: int, found: int)
    requires
        text.well_formed(),
        0 <= normalized < text.offset_table().len(),
        0 <= found < text.offset_table().len(),
        text.offset_table()[found] == text.offset_table()[normalized],
    ensures
        found == normalized,
{
    if found < normalized {
        assert(text.offset_table()[found] < text.offset_table()[normalized]);
    } else if found > normalized {
        assert(text.offset_table()[normalized] < text.offset_table()[found]);
    }
}

} // verus!
