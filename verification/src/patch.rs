//! Unified patches that preview a fix: one hunk per file, three lines of
//! context, and `git apply`-compatible quoting and end-of-file markers.
use vstd::prelude::*;
use vstd::string::StringExecFns;
use vstd::utf8::{
    encode_utf8, encode_utf8_valid_utf8, is_char_boundary, is_char_boundary_start_end_of_seq,
};

use crate::slices::{
    char_range, find_first, find_in, lemma_ascii_byte_boundaries, push_text, same_bytes,
    substring,
};
use crate::syntax::comments::{lemma_comment_patterns, lemma_find_bounds, slice_of};
use crate::syntax::tree::same_text;

verus! {

/// The escaped form of one byte of a quoted path.
pub open spec fn escape_byte(b: u8) -> Seq<u8> {
    if b == 92 {
        encode_utf8("\\\\"@)
    } else if b == 34 {
        encode_utf8("\\\""@)
    } else if b == 10 {
        encode_utf8("\\n"@)
    } else if b == 13 {
        encode_utf8("\\r"@)
    } else if b == 9 {
        encode_utf8("\\t"@)
    } else {
        seq![b]
    }
}

/// Whether a byte is escaped in a quoted path.
pub open spec fn escaped_byte(b: u8) -> bool {
    b == 92 || b == 34 || b == 10 || b == 13 || b == 9
}

/// The escaped form of the bytes of a path.
pub open spec fn escaped(bytes: Seq<u8>) -> Seq<u8>
    decreases bytes.len(),
{
    if bytes.len() == 0 {
        Seq::empty()
    } else {
        escaped(bytes.drop_last()) + escape_byte(bytes.last())
    }
}

/// A path in double quotes, with backslashes, quotes and control whitespace escaped.
pub open spec fn quoted(bytes: Seq<u8>) -> Seq<u8> {
    encode_utf8("\""@) + escaped(bytes) + encode_utf8("\""@)
}

/// Escaping distributes over concatenation.
pub proof fn lemma_escaped_concat(a: Seq<u8>, b: Seq<u8>)
    ensures
        escaped(a + b) == escaped(a) + escaped(b),
    decreases b.len(),
{
    if b.len() == 0 {
        assert(a + b =~= a);
        assert(escaped(a) + escaped(b) =~= escaped(a));
    } else {
        lemma_escaped_concat(a, b.drop_last());
        assert((a + b).drop_last() =~= a + b.drop_last());
        assert((a + b).last() == b.last());
        assert(escaped(a) + (escaped(b.drop_last()) + escape_byte(b.last())) =~= (escaped(a)
            + escaped(b.drop_last())) + escape_byte(b.last()));
    }
}

/// Bytes that need no escape are their own escaped form.
pub proof fn lemma_escaped_plain(bytes: Seq<u8>)
    requires
        forall|k: int| 0 <= k < bytes.len() ==> !escaped_byte(#[trigger] bytes[k]),
    ensures
        escaped(bytes) == bytes,
    decreases bytes.len(),
{
    if bytes.len() > 0 {
        lemma_escaped_plain(bytes.drop_last());
        assert(!escaped_byte(bytes[bytes.len() - 1]));
        assert(bytes.drop_last().push(bytes.last()) =~= bytes);
    }
}

/// The escape of a byte that needs one.
fn escape_text(b: u8) -> (text: &'static str)
    requires
        escaped_byte(b),
    ensures
        encode_utf8(text@) == escape_byte(b),
{
    if b == 92 {
        "\\\\"
    } else if b == 34 {
        "\\\""
    } else if b == 10 {
        "\\n"
    } else if b == 13 {
        "\\r"
    } else {
        "\\t"
    }
}

/// Quotes a path for a patch header.
pub fn quote_path(path: &str) -> (text: String)
    ensures
        encode_utf8(text@) == quoted(encode_utf8(path@)),
{
    let bytes = path.as_bytes();
    let ghost b = bytes@;
    proof {
        encode_utf8_valid_utf8(path@);
        is_char_boundary_start_end_of_seq(b);
    }
    let mut out = String::new();
    push_text(&mut out, "\"");
    let mut run: usize = 0;
    let mut i: usize = 0;
    while i < bytes.len()
        invariant
            b == bytes@,
            b == encode_utf8(path@),
            vstd::utf8::valid_utf8(b),
            run <= i <= b.len(),
            is_char_boundary(b, run as int),
            forall|k: int| run <= k < i ==> !escaped_byte(#[trigger] b[k]),
            encode_utf8(out@) == encode_utf8("\""@) + escaped(b.subrange(0, run as int)),
        decreases b.len() - i,
    {
        let c = bytes[i];
        if c == 92 || c == 34 || c == 10 || c == 13 || c == 9 {
            proof {
                lemma_ascii_byte_boundaries(b, i as int);
                lemma_escaped_plain(b.subrange(run as int, i as int));
                lemma_escaped_concat(b.subrange(0, run as int), b.subrange(run as int, i as int));
                assert(b.subrange(0, run as int) + b.subrange(run as int, i as int) =~= b.subrange(
                    0,
                    i as int,
                ));
                lemma_escaped_concat(b.subrange(0, i as int), seq![c]);
                assert(b.subrange(0, i as int) + seq![c] =~= b.subrange(0, i + 1));
                assert(escaped(seq![c]) == escape_byte(c)) by {
                    reveal_with_fuel(escaped, 2);
                    assert(seq![c].drop_last() =~= Seq::<u8>::empty());
                    assert(seq![c].last() == c);
                }
            }
            push_text(&mut out, substring(path, run, i));
            push_text(&mut out, escape_text(c));
            run = i + 1;
        }
        i = i + 1;
    }
    proof {
        lemma_escaped_plain(b.subrange(run as int, b.len() as int));
        lemma_escaped_concat(b.subrange(0, run as int), b.subrange(run as int, b.len() as int));
        assert(b.subrange(0, run as int) + b.subrange(run as int, b.len() as int) =~= b);
    }
    push_text(&mut out, substring(path, run, bytes.len()));
    push_text(&mut out, "\"");
    out
}

/// The lines of a text, each with its line feed when it has one.
pub open spec fn split_lines(bytes: Seq<u8>) -> Seq<Seq<u8>>
    decreases bytes.len(),
{
    if bytes.len() == 0 {
        Seq::empty()
    } else {
        match find_first(bytes, seq![10u8]) {
            Some(n) => if 0 <= n < bytes.len() {
                seq![bytes.subrange(0, n + 1)] + split_lines(bytes.subrange(n + 1, bytes.len() as int))
            } else {
                seq![bytes]
            },
            None => seq![bytes],
        }
    }
}

/// The texts that byte ranges select.
pub open spec fn range_texts(bytes: Seq<u8>, ranges: Seq<(usize, usize)>) -> Seq<Seq<u8>> {
    ranges.map_values(|r: (usize, usize)| bytes.subrange(r.0 as int, r.1 as int))
}

/// The byte ranges of the lines of a text.
fn line_ranges(text: &str) -> (ranges: Vec<(usize, usize)>)
    ensures
        range_texts(encode_utf8(text@), ranges@) == split_lines(encode_utf8(text@)),
        forall|k: int|
            0 <= k < ranges@.len() ==> char_range(
                encode_utf8(text@),
                (#[trigger] ranges@[k]).0 as int,
                ranges@[k].1 as int,
            ),
{
    let bytes = text.as_bytes();
    let ghost b = bytes@;
    proof {
        encode_utf8_valid_utf8(text@);
        is_char_boundary_start_end_of_seq(b);
        lemma_comment_patterns();
    }
    let newline = "\n".as_bytes();
    let mut ranges: Vec<(usize, usize)> = Vec::new();
    let mut pos: usize = 0;
    proof {
        assert(b.subrange(0, b.len() as int) =~= b);
        assert(range_texts(b, ranges@) =~= Seq::<Seq<u8>>::empty());
        assert(Seq::<Seq<u8>>::empty() + split_lines(b) =~= split_lines(b));
    }
    while pos < bytes.len()
        invariant
            b == bytes@,
            b == encode_utf8(text@),
            vstd::utf8::valid_utf8(b),
            newline@ == seq![10u8],
            pos <= b.len(),
            is_char_boundary(b, pos as int),
            is_char_boundary(b, b.len() as int),
            range_texts(b, ranges@) + split_lines(b.subrange(pos as int, b.len() as int))
                == split_lines(b),
            forall|k: int|
                0 <= k < ranges@.len() ==> char_range(
                    b,
                    (#[trigger] ranges@[k]).0 as int,
                    ranges@[k].1 as int,
                ),
        decreases b.len() - pos,
    {
        let ghost rest = b.subrange(pos as int, b.len() as int);
        let ghost before = ranges@;
        let end = match find_in(bytes, pos, bytes.len(), newline) {
            Some(n) => {
                proof {
                    lemma_find_bounds(rest, newline@);
                    crate::syntax::comments::lemma_find_occurs(rest, newline@, 0);
                    assert(rest.subrange(n as int, n + 1)[0] == rest[n as int]);
                    assert(rest[n as int] == b[pos + n]);
                    lemma_ascii_byte_boundaries(b, pos + n);
                    assert(rest.subrange(n + 1, rest.len() as int) =~= b.subrange(
                        pos + n + 1,
                        b.len() as int,
                    ));
                    assert(rest.subrange(0, n + 1) =~= b.subrange(pos as int, pos + n + 1));
                }
                pos + n + 1
            },
            None => {
                proof {
                    assert(b.subrange(b.len() as int, b.len() as int) =~= Seq::<u8>::empty());
                    assert(rest.len() > 0);
                    assert(split_lines(rest) == seq![rest]);
                    assert(rest =~= b.subrange(pos as int, b.len() as int));
                }
                bytes.len()
            },
        };
        ranges.push((pos, end));
        proof {
            assert(range_texts(b, ranges@) =~= range_texts(b, before).push(
                b.subrange(pos as int, end as int),
            ));
            assert(split_lines(rest) =~= seq![b.subrange(pos as int, end as int)] + split_lines(
                b.subrange(end as int, b.len() as int),
            ));
            assert(range_texts(b, before).push(b.subrange(pos as int, end as int)) + split_lines(
                b.subrange(end as int, b.len() as int),
            ) =~= range_texts(b, before) + (seq![b.subrange(pos as int, end as int)] + split_lines(
                b.subrange(end as int, b.len() as int),
            )));
        }
        pos = end;
    }
    proof {
        assert(b.subrange(pos as int, b.len() as int) =~= Seq::<u8>::empty());
        assert(range_texts(b, ranges@) + Seq::<Seq<u8>>::empty() =~= range_texts(b, ranges@));
    }
    ranges
}

/// The number of leading lines, from position `k` on, that the texts share.
pub open spec fn common_prefix(old: Seq<Seq<u8>>, new: Seq<Seq<u8>>, k: int) -> int
    decreases old.len() - k,
{
    if 0 <= k < old.len() && k < new.len() && old[k] == new[k] {
        common_prefix(old, new, k + 1)
    } else {
        k
    }
}

/// The number of trailing lines, from position `k` and up to `limit`, that the texts share.
pub open spec fn common_suffix(old: Seq<Seq<u8>>, new: Seq<Seq<u8>>, limit: int, k: int) -> int
    decreases limit - k,
{
    if 0 <= k < limit && k < old.len() && k < new.len() && old[old.len() - 1 - k] == new[new.len()
        - 1 - k] {
        common_suffix(old, new, limit, k + 1)
    } else {
        k
    }
}

/// The decimal text of a digit.
pub open spec fn digit_text(d: int) -> Seq<char> {
    if d == 0 {
        "0"@
    } else if d == 1 {
        "1"@
    } else if d == 2 {
        "2"@
    } else if d == 3 {
        "3"@
    } else if d == 4 {
        "4"@
    } else if d == 5 {
        "5"@
    } else if d == 6 {
        "6"@
    } else if d == 7 {
        "7"@
    } else if d == 8 {
        "8"@
    } else {
        "9"@
    }
}

/// The UTF-8 decimal representation of a number.
pub open spec fn decimal(n: nat) -> Seq<u8>
    decreases n,
{
    if n < 10 {
        encode_utf8(digit_text(n as int))
    } else {
        decimal(n / 10) + encode_utf8(digit_text((n % 10) as int))
    }
}

/// A patch line: its marker, the line, and a note when the line lacks a line feed.
pub open spec fn marked(marker: Seq<char>, line: Seq<u8>) -> Seq<u8> {
    encode_utf8(marker) + line + if line.len() > 0 && line.last() == 10 {
        Seq::empty()
    } else {
        encode_utf8("\n\\ No newline at end of file\n"@)
    }
}

/// The marked lines `lines[from..to]`.
pub open spec fn marked_lines(marker: Seq<char>, lines: Seq<Seq<u8>>, from: int, to: int) -> Seq<u8>
    decreases to - from,
{
    if to <= from {
        Seq::empty()
    } else {
        marked_lines(marker, lines, from, to - 1) + marked(marker, lines[to - 1])
    }
}

/// A count less three, or zero.
pub open spec fn less_three(n: int) -> int {
    if n > 3 {
        n - 3
    } else {
        0
    }
}

/// The single-hunk unified patch from `before` to `after` of the file `name`:
/// empty when nothing changes.
pub open spec fn unified_patch(name: Seq<char>, before: Seq<char>, after: Seq<char>) -> Seq<u8> {
    if before == after {
        Seq::empty()
    } else {
        let old = split_lines(encode_utf8(before));
        let new = split_lines(encode_utf8(after));
        let prefix = common_prefix(old, new, 0);
        let limit = (if old.len() < new.len() {
            old.len()
        } else {
            new.len()
        }) - prefix;
        let suffix = common_suffix(old, new, limit, 0);
        let start = less_three(prefix);
        let old_end = old.len() - less_three(suffix);
        let new_end = new.len() - less_three(suffix);
        let old_count = old_end - start;
        let new_count = new_end - start;
        let header = encode_utf8("--- "@) + quoted(encode_utf8("a/"@ + name)) + encode_utf8(
            "\n+++ "@,
        ) + quoted(encode_utf8("b/"@ + name)) + encode_utf8("\n@@ -"@) + decimal(
            (start + if old_count != 0 {
                1int
            } else {
                0int
            }) as nat,
        ) + encode_utf8(","@) + decimal(old_count as nat) + encode_utf8(" +"@) + decimal(
            (start + if new_count != 0 {
                1int
            } else {
                0int
            }) as nat,
        ) + encode_utf8(","@) + decimal(new_count as nat) + encode_utf8(" @@\n"@);
        header + marked_lines(" "@, old, start, prefix) + marked_lines("-"@, old, prefix, old.len()
            - suffix) + marked_lines("+"@, new, prefix, new.len() - suffix) + marked_lines(
            " "@,
            old,
            old.len() - suffix,
            old_end,
        )
    }
}

/// The decimal text of a digit.
fn digit(d: usize) -> (text: &'static str)
    requires
        d < 10,
    ensures
        text@ == digit_text(d as int),
{
    if d == 0 {
        "0"
    } else if d == 1 {
        "1"
    } else if d == 2 {
        "2"
    } else if d == 3 {
        "3"
    } else if d == 4 {
        "4"
    } else if d == 5 {
        "5"
    } else if d == 6 {
        "6"
    } else if d == 7 {
        "7"
    } else if d == 8 {
        "8"
    } else {
        "9"
    }
}

/// Appends the decimal representation of a number.
fn push_decimal(out: &mut String, n: usize)
    ensures
        encode_utf8(final(out)@) == encode_utf8(old(out)@) + decimal(n as nat),
    decreases n,
{
    if n < 10 {
        push_text(out, digit(n));
    } else {
        push_decimal(out, n / 10);
        push_text(out, digit(n % 10));
        proof {
            assert(encode_utf8(out@) =~= encode_utf8(old(out)@) + decimal(n as nat));
        }
    }
}

/// Appends the lines `ranges[from..to]` of `text`, each with its marker.
fn push_marked(
    out: &mut String,
    marker: &str,
    text: &str,
    ranges: &Vec<(usize, usize)>,
    from: usize,
    to: usize,
)
    requires
        from <= to <= ranges@.len(),
        forall|k: int|
            0 <= k < ranges@.len() ==> char_range(
                encode_utf8(text@),
                (#[trigger] ranges@[k]).0 as int,
                ranges@[k].1 as int,
            ),
    ensures
        encode_utf8(final(out)@) == encode_utf8(old(out)@) + marked_lines(
            marker@,
            range_texts(encode_utf8(text@), ranges@),
            from as int,
            to as int,
        ),
{
    let ghost lines = range_texts(encode_utf8(text@), ranges@);
    let bytes = text.as_bytes();
    let mut j = from;
    while j < to
        invariant
            from <= j <= to <= ranges@.len(),
            bytes@ == encode_utf8(text@),
            lines == range_texts(encode_utf8(text@), ranges@),
            forall|k: int|
                0 <= k < ranges@.len() ==> char_range(
                    encode_utf8(text@),
                    (#[trigger] ranges@[k]).0 as int,
                    ranges@[k].1 as int,
                ),
            encode_utf8(out@) == encode_utf8(old(out)@) + marked_lines(
                marker@,
                lines,
                from as int,
                j as int,
            ),
        decreases to - j,
    {
        let (s, e) = ranges[j];
        let ghost before = encode_utf8(out@);
        push_text(out, marker);
        push_text(out, substring(text, s, e));
        let complete = e > s && bytes[e - 1] == 10;
        if !complete {
            push_text(out, "\n\\ No newline at end of file\n");
        }
        proof {
            let line = lines[j as int];
            assert(line == bytes@.subrange(s as int, e as int));
            if e > s {
                assert(line.last() == bytes@[e - 1]);
            }
            assert(encode_utf8(out@) =~= before + marked(marker@, line));
        }
        j = j + 1;
    }
}

/// Whether lines `i` of `a` and `j` of `b` hold the same bytes.
fn same_line(
    a: &[u8],
    ra: &Vec<(usize, usize)>,
    i: usize,
    b: &[u8],
    rb: &Vec<(usize, usize)>,
    j: usize,
) -> (same: bool)
    requires
        i < ra@.len(),
        j < rb@.len(),
        ra@[i as int].0 <= ra@[i as int].1 <= a@.len(),
        rb@[j as int].0 <= rb@[j as int].1 <= b@.len(),
    ensures
        same == (range_texts(a@, ra@)[i as int] == range_texts(b@, rb@)[j as int]),
{
    let (s, e) = ra[i];
    let (t, f) = rb[j];
    same_bytes(slice_of(a, s, e), slice_of(b, t, f))
}

/// A text that does not change gets an empty patch.
pub proof fn lemma_unchanged_text_empty_patch(name: Seq<char>, text: Seq<char>)
    ensures
        unified_patch(name, text, text) == Seq::<u8>::empty(),
{
}

/// Builds a single-hunk unified patch from `before` to `after` for the file
/// `name`; empty when the texts are equal.
#[verifier::spinoff_prover]
#[verifier::rlimit(40)]
pub fn unified(name: &str, before: &str, after: &str) -> (patch: String)
    ensures
        encode_utf8(patch@) == unified_patch(name@, before@, after@),
{
    if same_text(before, after) {
        return String::new();
    }
    let old = line_ranges(before);
    let new = line_ranges(after);
    let a = before.as_bytes();
    let b = after.as_bytes();
    let ghost old_lines = range_texts(a@, old@);
    let ghost new_lines = range_texts(b@, new@);
    let shorter = if old.len() < new.len() {
        old.len()
    } else {
        new.len()
    };
    let mut prefix: usize = 0;
    while prefix < shorter && same_line(a, &old, prefix, b, &new, prefix)
        invariant
            prefix <= shorter,
            shorter <= old@.len(),
            shorter <= new@.len(),
            shorter == old@.len() || shorter == new@.len(),
            a@ == encode_utf8(before@),
            b@ == encode_utf8(after@),
            old_lines == range_texts(a@, old@),
            new_lines == range_texts(b@, new@),
            forall|k: int|
                0 <= k < old@.len() ==> char_range(a@, (#[trigger] old@[k]).0 as int, old@[k].1 as int),
            forall|k: int|
                0 <= k < new@.len() ==> char_range(b@, (#[trigger] new@[k]).0 as int, new@[k].1 as int),
            common_prefix(old_lines, new_lines, 0) == common_prefix(old_lines, new_lines, prefix as int),
        decreases shorter - prefix,
    {
        prefix = prefix + 1;
    }
    let limit = shorter - prefix;
    let mut suffix: usize = 0;
    while suffix < limit && same_line(
        a,
        &old,
        old.len() - 1 - suffix,
        b,
        &new,
        new.len() - 1 - suffix,
    )
        invariant
            suffix <= limit,
            limit == shorter - prefix,
            shorter <= old@.len(),
            shorter <= new@.len(),
            a@ == encode_utf8(before@),
            b@ == encode_utf8(after@),
            old_lines == range_texts(a@, old@),
            new_lines == range_texts(b@, new@),
            forall|k: int|
                0 <= k < old@.len() ==> char_range(a@, (#[trigger] old@[k]).0 as int, old@[k].1 as int),
            forall|k: int|
                0 <= k < new@.len() ==> char_range(b@, (#[trigger] new@[k]).0 as int, new@[k].1 as int),
            common_suffix(old_lines, new_lines, limit as int, 0) == common_suffix(
                old_lines,
                new_lines,
                limit as int,
                suffix as int,
            ),
        decreases limit - suffix,
    {
        suffix = suffix + 1;
    }
    let start = if prefix > 3 {
        prefix - 3
    } else {
        0
    };
    let keep = if suffix > 3 {
        suffix - 3
    } else {
        0
    };
    let old_end = old.len() - keep;
    let new_end = new.len() - keep;
    let old_count = old_end - start;
    let new_count = new_end - start;
    let mut out = String::new();
    push_text(&mut out, "--- ");
    let mut old_name = String::from_str("a/");
    old_name.append(name);
    push_text(&mut out, quote_path(old_name.as_str()).as_str());
    push_text(&mut out, "\n+++ ");
    let mut new_name = String::from_str("b/");
    new_name.append(name);
    push_text(&mut out, quote_path(new_name.as_str()).as_str());
    push_text(&mut out, "\n@@ -");
    push_decimal(
        &mut out,
        start + if old_count != 0 {
            1
        } else {
            0
        },
    );
    push_text(&mut out, ",");
    push_decimal(&mut out, old_count);
    push_text(&mut out, " +");
    push_decimal(
        &mut out,
        start + if new_count != 0 {
            1
        } else {
            0
        },
    );
    push_text(&mut out, ",");
    push_decimal(&mut out, new_count);
    push_text(&mut out, " @@\n");
    push_marked(&mut out, " ", before, &old, start, prefix);
    push_marked(&mut out, "-", before, &old, prefix, old.len() - suffix);
    push_marked(&mut out, "+", after, &new, prefix, new.len() - suffix);
    push_marked(&mut out, " ", before, &old, old.len() - suffix, old_end);
    proof {
        assert(old_lines == split_lines(encode_utf8(before@)));
        assert(new_lines == split_lines(encode_utf8(after@)));
    }
    out
}

} // verus!
