//! Ownership of the comments between two units. A trailing line comment belongs
//! to the unit before it, a run of leading line comments to the unit after it;
//! block comments and comment sections are barriers, not material to rearrange.
use vstd::prelude::*;
use vstd::utf8::{encode_scalar, encode_utf8};

use crate::model::{ByteRange, Gap};
use crate::slices::{
    all_trivia, bytes_are_trivia, char_range, count_byte, count_byte_in, find_first, find_in,
    find_last_byte, find_last_byte_before, occurs_at,
};

verus! {

/// A boundary whose spacing must be preserved.
pub open spec fn barrier(range: ByteRange) -> Gap {
    Gap { range, blank_lines: 0, vertical: false, protected: true, joinable: false }
}

/// Empty lines in a run of trivia: one fewer than its line feeds.
pub open spec fn blank_lines_of(bytes: Seq<u8>) -> usize {
    if count_byte(bytes, 10) == 0 {
        0
    } else {
        (count_byte(bytes, 10) - 1) as usize
    }
}

/// An editable boundary over a run of trivia.
pub open spec fn trivia_gap(range: ByteRange, bytes: Seq<u8>, joinable: bool) -> Gap {
    Gap {
        range,
        blank_lines: blank_lines_of(bytes),
        vertical: count_byte(bytes, 10) > 0,
        protected: false,
        joinable,
    }
}

/// Whether a byte is ASCII whitespace.
pub open spec fn space_byte(b: u8) -> bool {
    b == 9 || b == 10 || b == 11 || b == 12 || b == 13 || b == 32
}

/// A line without its leading whitespace.
pub open spec fn trim_leading(line: Seq<u8>) -> Seq<u8>
    decreases line.len(),
{
    if line.len() > 0 && space_byte(line[0]) {
        trim_leading(line.drop_first())
    } else {
        line
    }
}

/// Whether a line, past its indentation, is a line comment.
pub open spec fn comment_line(line: Seq<u8>) -> bool {
    occurs_at(trim_leading(line), encode_utf8("//"@), 0)
}

/// Whether a line holds only spaces and tabs.
pub open spec fn indentation_only(line: Seq<u8>) -> bool {
    forall|i: int| 0 <= i < line.len() ==> #[trigger] line[i] == 32 || line[i] == 9
}

/// Whether every line but the last is a line comment and the last holds only indentation.
pub open spec fn comment_lines(bytes: Seq<u8>) -> bool
    decreases bytes.len(),
{
    match find_first(bytes, encode_utf8("\n"@)) {
        None => indentation_only(bytes),
        Some(n) => if 0 <= n < bytes.len() {
            comment_line(bytes.subrange(0, n)) && comment_lines(bytes.subrange(n + 1, bytes.len() as int))
        } else {
            false
        },
    }
}

/// Where the editable part of a commented gap that starts at `start` ends: at
/// the start of the leading comment lines that belong to the following unit;
/// `None` when the comments after `start` are not such lines.
pub open spec fn leading_comment_start(src: Seq<u8>, start: int, end: int) -> Option<int> {
    match find_first(src.subrange(start, end), encode_utf8("//"@)) {
        None => Some(end),
        Some(c) => {
            let line_start = match find_last_byte(src.subrange(0, start + c), 10) {
                Some(n) => n + 1,
                None => start,
            };
            if start <= line_start <= end && char_range(src, line_start, end) && comment_lines(
                src.subrange(line_start, end),
            ) {
                Some(line_start)
            } else {
                None
            }
        },
    }
}

/// The boundary between two units whose code ends at `left_end` and starts at `right_start`.
pub open spec fn spec_classify_gap(src: Seq<u8>, left_end: usize, right_start: usize) -> Gap {
    let range = ByteRange { start: left_end, end: right_start };
    if !char_range(src, left_end as int, right_start as int) {
        barrier(range)
    } else {
        let text = src.subrange(left_end as int, right_start as int);
        if find_first(text, encode_utf8("/*"@)) is Some || find_first(text, encode_utf8("*/"@)) is Some {
            barrier(range)
        } else if find_first(text, encode_utf8("//"@)) is Some {
            let newline = find_first(text, encode_utf8("\n"@));
            let comment = find_first(text, encode_utf8("//"@));
            let trailing = newline is None || comment->0 < newline->0;
            if trailing && newline is None {
                barrier(range)
            } else {
                let start = if trailing {
                    left_end + newline->0
                } else {
                    left_end as int
                };
                if !char_range(src, start, right_start as int) {
                    barrier(range)
                } else {
                    match leading_comment_start(src, start, right_start as int) {
                        None => barrier(range),
                        Some(end) => if char_range(src, start, end) && all_trivia(
                            src.subrange(start, end),
                        ) {
                            trivia_gap(
                                ByteRange { start: start as usize, end: end as usize },
                                src.subrange(start, end),
                                false,
                            )
                        } else {
                            barrier(range)
                        },
                    }
                }
            }
        } else if !all_trivia(text) {
            barrier(range)
        } else {
            trivia_gap(range, text, true)
        }
    }
}

/// The shape of a classified gap: a protected gap spans the whole boundary and
/// has no blank line, line break or join; an editable one counts the line feeds
/// of its text (blank lines one fewer) and is joinable only when it spans the
/// whole boundary; a block comment anywhere in a readable boundary protects it.
pub proof fn lemma_gap_shape(src: Seq<u8>, left_end: usize, right_start: usize)
    ensures
        ({
            let gap = spec_classify_gap(src, left_end, right_start);
            let text = src.subrange(gap.range.start as int, gap.range.end as int);
            &&& gap.protected ==> gap.blank_lines == 0 && !gap.vertical && !gap.joinable && gap.range == (ByteRange {
                start: left_end,
                end: right_start,
            })
            &&& !gap.protected ==> gap.blank_lines == blank_lines_of(text) && gap.vertical == (count_byte(text, 10)
                > 0)
            &&& gap.joinable ==> !gap.protected && gap.range == (ByteRange { start: left_end, end: right_start })
            &&& char_range(src, left_end as int, right_start as int) && (find_first(
                src.subrange(left_end as int, right_start as int),
                encode_utf8("/*"@),
            ) is Some || find_first(src.subrange(left_end as int, right_start as int), encode_utf8("*/"@))
                is Some) ==> gap.protected
        }),
{
}

/// An editable boundary lies between the two units and is a character range of
/// trivia: whatever `classify_gap` does not protect spans only whitespace between
/// `left_end` and `right_start`, so an edit of it cannot touch code or comments.
pub proof fn lemma_editable_gap_is_trivia(src: Seq<u8>, left_end: usize, right_start: usize)
    ensures
        ({
            let gap = spec_classify_gap(src, left_end, right_start);
            !gap.protected ==> {
                &&& left_end <= gap.range.start <= gap.range.end <= right_start
                &&& char_range(src, gap.range.start as int, gap.range.end as int)
                &&& all_trivia(src.subrange(gap.range.start as int, gap.range.end as int))
            }
        }),
{
    let text = src.subrange(left_end as int, right_start as int);
    lemma_find_bounds(text, encode_utf8("\n"@));
}

/// Whether `bytes[lo..hi]` holds only spaces and tabs.
fn indentation_only_in(bytes: &[u8], lo: usize, hi: usize) -> (only: bool)
    requires
        lo <= hi <= bytes@.len(),
    ensures
        only == indentation_only(bytes@.subrange(lo as int, hi as int)),
{
    let mut i = lo;
    while i < hi
        invariant
            lo <= i <= hi <= bytes@.len(),
            forall|k: int| lo <= k < i ==> #[trigger] bytes@[k] == 32 || bytes@[k] == 9,
        decreases hi - i,
    {
        if !(bytes[i] == 32 || bytes[i] == 9) {
            proof {
                assert(bytes@.subrange(lo as int, hi as int)[i - lo] == bytes@[i as int]);
            }
            return false;
        }
        i = i + 1;
    }
    proof {
        assert forall|k: int| 0 <= k < hi - lo implies #[trigger] bytes@.subrange(
            lo as int,
            hi as int,
        )[k] == 32 || bytes@.subrange(lo as int, hi as int)[k] == 9 by {
            assert(bytes@.subrange(lo as int, hi as int)[k] == bytes@[lo + k]);
        }
    }
    true
}

/// Whether `bytes[lo..hi]`, past its indentation, is a line comment.
fn comment_line_in(bytes: &[u8], lo: usize, hi: usize, slashes: &[u8]) -> (comment: bool)
    requires
        lo <= hi <= bytes@.len(),
        slashes@ == encode_utf8("//"@),
    ensures
        comment == comment_line(bytes@.subrange(lo as int, hi as int)),
{
    let mut i = lo;
    let mut scanning = true;
    while scanning && i < hi
        invariant
            lo <= i <= hi <= bytes@.len(),
            trim_leading(bytes@.subrange(lo as int, hi as int)) == trim_leading(
                bytes@.subrange(i as int, hi as int),
            ),
            !scanning ==> i < hi && !space_byte(bytes@[i as int]),
        decreases (hi - i) as int + if scanning {
            1int
        } else {
            0int
        },
    {
        let b = bytes[i];
        if b == 9 || b == 10 || b == 11 || b == 12 || b == 13 || b == 32 {
            proof {
                assert(bytes@.subrange(i as int, hi as int)[0] == b);
                assert(bytes@.subrange(i as int, hi as int).drop_first() =~= bytes@.subrange(
                    i + 1,
                    hi as int,
                ));
            }
            i = i + 1;
        } else {
            scanning = false;
        }
    }
    proof {
        let rest = bytes@.subrange(i as int, hi as int);
        if rest.len() > 0 {
            assert(rest[0] == bytes@[i as int]);
        }
        assert(!(rest.len() > 0 && space_byte(rest[0])));
        assert(trim_leading(rest) == rest);
        lemma_comment_patterns();
    }
    if hi - i < slashes.len() {
        return false;
    }
    let same = bytes[i] == slashes[0] && bytes[i + 1] == slashes[1];
    proof {
        let rest = bytes@.subrange(i as int, hi as int);
        assert(slashes@.len() == 2);
        if same {
            assert(rest.subrange(0, 2) =~= slashes@);
        } else {
            assert(rest.subrange(0, 2)[0] == bytes@[i as int]);
            assert(rest.subrange(0, 2)[1] == bytes@[i + 1]);
        }
    }
    same
}

/// Whether `bytes[lo..hi]` consists of line comments followed by indentation.
fn comment_lines_in(bytes: &[u8], lo: usize, hi: usize, slashes: &[u8], newline: &[u8]) -> (lines:
    bool)
    requires
        lo <= hi <= bytes@.len(),
        slashes@ == encode_utf8("//"@),
        newline@ == encode_utf8("\n"@),
    ensures
        lines == comment_lines(bytes@.subrange(lo as int, hi as int)),
{
    proof {
        lemma_comment_patterns();
    }
    let mut pos = lo;
    loop
        invariant
            lo <= pos <= hi,
            hi <= bytes@.len(),
            slashes@ == encode_utf8("//"@),
            newline@ == encode_utf8("\n"@),
            newline@ == seq![10u8],
            comment_lines(bytes@.subrange(lo as int, hi as int)) == comment_lines(
                bytes@.subrange(pos as int, hi as int),
            ),
        decreases hi - pos,
    {
        let ghost rest = bytes@.subrange(pos as int, hi as int);
        match find_in(bytes, pos, hi, newline) {
            None => {
                return indentation_only_in(bytes, pos, hi);
            },
            Some(n) => {
                proof {
                    lemma_find_bounds(rest, newline@);
                }
                if !comment_line_in(bytes, pos, pos + n, slashes) {
                    proof {
                        assert(rest.subrange(0, n as int) =~= bytes@.subrange(pos as int, pos + n));
                    }
                    return false;
                }
                proof {
                    assert(rest.subrange(0, n as int) =~= bytes@.subrange(pos as int, pos + n));
                    assert(rest.subrange(n + 1, rest.len() as int) =~= bytes@.subrange(
                        pos + n + 1,
                        hi as int,
                    ));
                }
                pos = pos + n + 1;
            },
        }
    }
}

/// The UTF-8 encodings of the line feed and of the line-comment opener.
pub proof fn lemma_comment_patterns()
    ensures
        encode_utf8("\n"@) == seq![10u8],
        encode_utf8("//"@) == seq![47u8, 47u8],
{
    reveal_strlit("\n");
    reveal_strlit("//");
    let nl = "\n"@;
    let sl = "//"@;
    assert(nl[0] as u32 == 10);
    assert(sl[0] as u32 == 47 && sl[1] as u32 == 47);
    assert((10u32 & 0x7F) as u8 == 10u8) by (bit_vector);
    assert((47u32 & 0x7F) as u8 == 47u8) by (bit_vector);
    assert(encode_scalar(10u32) =~= seq![10u8]);
    assert(encode_scalar(47u32) =~= seq![47u8]);
    assert(nl.drop_first() =~= Seq::<char>::empty());
    assert(sl.drop_first().drop_first() =~= Seq::<char>::empty());
    assert(encode_utf8(nl.drop_first()) =~= Seq::<u8>::empty());
    assert(encode_utf8(nl) =~= seq![10u8]);
    assert(sl.drop_first()[0] == sl[1]);
    assert(encode_utf8(sl.drop_first().drop_first()) =~= Seq::<u8>::empty());
    assert(encode_utf8(sl.drop_first()) =~= seq![47u8]);
    assert(encode_utf8(sl) =~= seq![47u8, 47u8]);
}

/// A found occurrence lies within the searched bytes.
pub proof fn lemma_find_bounds(bytes: Seq<u8>, pat: Seq<u8>)
    ensures
        find_first(bytes, pat) matches Some(k) ==> 0 <= k && k + pat.len() <= bytes.len(),
{
    lemma_find_from_bounds(bytes, pat, 0);
}

/// Each occurrence found from `i` on lies at or after `i` and within the bytes.
pub proof fn lemma_find_from_bounds(bytes: Seq<u8>, pat: Seq<u8>, i: int)
    ensures
        find_from_result_in(bytes, pat, i),
    decreases bytes.len() + 1 - i,
{
    if !(i < 0 || i + pat.len() > bytes.len()) && !crate::slices::occurs_at(bytes, pat, i) {
        lemma_find_from_bounds(bytes, pat, i + 1);
    }
}

/// An occurrence found from `i` on is an occurrence.
pub proof fn lemma_find_occurs(bytes: Seq<u8>, pat: Seq<u8>, i: int)
    ensures
        crate::slices::find_from(bytes, pat, i) matches Some(k) ==> occurs_at(bytes, pat, k),
    decreases bytes.len() + 1 - i,
{
    if !(i < 0 || i + pat.len() > bytes.len()) && !occurs_at(bytes, pat, i) {
        lemma_find_occurs(bytes, pat, i + 1);
    }
}

/// Whether the occurrence found from `i` on, if any, lies at or after `i` and within the bytes.
pub open spec fn find_from_result_in(bytes: Seq<u8>, pat: Seq<u8>, i: int) -> bool {
    crate::slices::find_from(bytes, pat, i) matches Some(k) ==> i <= k && 0 <= k && k + pat.len()
        <= bytes.len()
}

/// Classifies the trivia between two complete syntax nodes.
pub fn classify_gap(source: &str, left: ByteRange, right: ByteRange) -> (gap: Gap)
    ensures
        gap == spec_classify_gap(encode_utf8(source@), left.end, right.start),
{
    let bytes = source.as_bytes();
    let ghost src = bytes@;
    proof {
        lemma_comment_patterns();
    }
    let range = ByteRange::new(left.end, right.start);
    if !(range.start <= range.end && range.end <= bytes.len() && source.is_char_boundary(range.start)
        && source.is_char_boundary(range.end)) {
        return Gap { range, blank_lines: 0, vertical: false, protected: true, joinable: false };
    }
    let slashes = "//".as_bytes();
    let newline = "\n".as_bytes();
    let open = "/*".as_bytes();
    let close = "*/".as_bytes();
    if find_in(bytes, range.start, range.end, open).is_some() || find_in(
        bytes,
        range.start,
        range.end,
        close,
    ).is_some() {
        return Gap { range, blank_lines: 0, vertical: false, protected: true, joinable: false };
    }
    let comment = find_in(bytes, range.start, range.end, slashes);
    if comment.is_some() {
        let first_newline = find_in(bytes, range.start, range.end, newline);
        let trailing = match (comment, first_newline) {
            (Some(c), Some(n)) => c < n,
            _ => true,
        };
        let start = if trailing {
            match first_newline {
                None => {
                    return Gap {
                        range,
                        blank_lines: 0,
                        vertical: false,
                        protected: true,
                        joinable: false,
                    };
                },
                Some(n) => {
                    proof {
                        lemma_find_bounds(src.subrange(range.start as int, range.end as int), newline@);
                    }
                    range.start + n
                },
            }
        } else {
            range.start
        };
        if !source.is_char_boundary(start) {
            return Gap { range, blank_lines: 0, vertical: false, protected: true, joinable: false };
        }
        let end = match find_in(bytes, start, range.end, slashes) {
            None => range.end,
            Some(c) => {
                proof {
                    lemma_find_bounds(src.subrange(start as int, range.end as int), slashes@);
                }
                let line_start = match find_last_byte_before(bytes, start + c, 10) {
                    Some(n) => n + 1,
                    None => start,
                };
                if !(start <= line_start && line_start <= range.end && source.is_char_boundary(
                    line_start,
                ) && comment_lines_in(bytes, line_start, range.end, slashes, newline)) {
                    return Gap {
                        range,
                        blank_lines: 0,
                        vertical: false,
                        protected: true,
                        joinable: false,
                    };
                }
                line_start
            },
        };
        proof {
            assert(src.subrange(start as int, end as int) =~= src.subrange(start as int, end as int));
        }
        if !(source.is_char_boundary(end) && bytes_are_trivia(slice_of(bytes, start, end))) {
            return Gap { range, blank_lines: 0, vertical: false, protected: true, joinable: false };
        }
        let count = count_byte_in(bytes, start, end, 10);
        return Gap {
            range: ByteRange::new(start, end),
            blank_lines: if count == 0 {
                0
            } else {
                count - 1
            },
            vertical: count > 0,
            protected: false,
            joinable: false,
        };
    }
    if !bytes_are_trivia(slice_of(bytes, range.start, range.end)) {
        return Gap { range, blank_lines: 0, vertical: false, protected: true, joinable: false };
    }
    let count = count_byte_in(bytes, range.start, range.end, 10);
    Gap {
        range,
        blank_lines: if count == 0 {
            0
        } else {
            count - 1
        },
        vertical: count > 0,
        protected: false,
        joinable: true,
    }
}

/// The bytes `bytes[lo..hi]`.
pub fn slice_of(bytes: &[u8], lo: usize, hi: usize) -> (part: &[u8])
    requires
        lo <= hi <= bytes@.len(),
    ensures
        part@ == bytes@.subrange(lo as int, hi as int),
{
    let (_, tail) = bytes.split_at(lo);
    let (part, _) = tail.split_at(hi - lo);
    proof {
        assert(part@ =~= bytes@.subrange(lo as int, hi as int));
    }
    part
}

} // verus!
