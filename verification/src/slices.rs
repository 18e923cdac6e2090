//! Byte-level views of UTF-8 text: substrings by byte offset, and the
//! non-whitespace content of a byte sequence.
use vstd::prelude::*;
use vstd::utf8::*;

verus! {

/// Whether a byte is an ASCII space, tab, carriage return, or line feed.
pub open spec fn is_trivia_byte(byte: u8) -> bool {
    byte == 32 || byte == 9 || byte == 13 || byte == 10
}

/// Whether every byte is trivia.
pub open spec fn all_trivia(bytes: Seq<u8>) -> bool {
    forall|i: int| 0 <= i < bytes.len() ==> is_trivia_byte(#[trigger] bytes[i])
}

/// The non-trivia bytes of a sequence, in order.
pub open spec fn visible(bytes: Seq<u8>) -> Seq<u8>
    decreases bytes.len(),
{
    if bytes.len() == 0 {
        Seq::empty()
    } else if is_trivia_byte(bytes.last()) {
        visible(bytes.drop_last())
    } else {
        visible(bytes.drop_last()).push(bytes.last())
    }
}

/// The visible content of a concatenation is the concatenation of visible contents.
pub proof fn lemma_visible_concat(a: Seq<u8>, b: Seq<u8>)
    ensures
        visible(a + b) == visible(a) + visible(b),
    decreases b.len(),
{
    if b.len() == 0 {
        assert(a + b =~= a);
        assert(visible(a) + visible(b) =~= visible(a));
    } else {
        lemma_visible_concat(a, b.drop_last());
        assert((a + b).drop_last() =~= a + b.drop_last());
        assert((a + b).last() == b.last());
        if !is_trivia_byte(b.last()) {
            assert(visible(a) + visible(b.drop_last()).push(b.last()) =~= (visible(a) + visible(
                b.drop_last(),
            )).push(b.last()));
        }
    }
}

/// Trivia has no visible content.
pub proof fn lemma_visible_trivia(bytes: Seq<u8>)
    requires
        all_trivia(bytes),
    ensures
        visible(bytes) == Seq::<u8>::empty(),
    decreases bytes.len(),
{
    if bytes.len() > 0 {
        assert(is_trivia_byte(bytes[bytes.len() - 1]));
        lemma_visible_trivia(bytes.drop_last());
    }
}

/// Encoding a concatenation concatenates the encodings.
pub proof fn lemma_encode_concat(a: Seq<char>, b: Seq<char>)
    ensures
        encode_utf8(a + b) == encode_utf8(a) + encode_utf8(b),
    decreases a.len(),
{
    if a.len() == 0 {
        assert(a + b =~= b);
        assert(encode_utf8(a) + encode_utf8(b) =~= encode_utf8(b));
    } else {
        lemma_encode_concat(a.drop_first(), b);
        assert((a + b).drop_first() =~= a.drop_first() + b);
        assert((a + b)[0] == a[0]);
        assert(encode_scalar(a[0] as u32) + (encode_utf8(a.drop_first()) + encode_utf8(b))
            =~= (encode_scalar(a[0] as u32) + encode_utf8(a.drop_first())) + encode_utf8(b));
    }
}

/// Whether `[start, end)` is a range of `bytes` that begins and ends on character boundaries.
pub open spec fn char_range(bytes: Seq<u8>, start: int, end: int) -> bool {
    0 <= start <= end <= bytes.len() && is_char_boundary(bytes, start) && is_char_boundary(
        bytes,
        end,
    )
}

/// A boundary of a valid sequence remains a boundary of a suffix that starts at a boundary.
pub proof fn lemma_boundary_in_suffix(bytes: Seq<u8>, a: int, b: int)
    requires
        valid_utf8(bytes),
        char_range(bytes, a, b),
    ensures
        valid_utf8(bytes.subrange(a, bytes.len() as int)),
        is_char_boundary(bytes.subrange(a, bytes.len() as int), b - a),
{
    valid_utf8_split(bytes, a);
    let rest = bytes.subrange(a, bytes.len() as int);
    if b == bytes.len() {
        is_char_boundary_start_end_of_seq(rest);
    } else {
        is_char_boundary_iff_not_is_continuation_byte(bytes, b);
        is_char_boundary_iff_not_is_continuation_byte(rest, b - a);
        assert(rest[b - a] == bytes[b]);
    }
}

/// In a sequence of ASCII bytes every offset up to its length is a character boundary.
pub proof fn lemma_ascii_boundaries(bytes: Seq<u8>, i: int)
    requires
        valid_utf8(bytes),
        forall|k: int| 0 <= k < bytes.len() ==> #[trigger] bytes[k] < 128,
        0 <= i <= bytes.len(),
    ensures
        is_char_boundary(bytes, i),
{
    if i == bytes.len() {
        is_char_boundary_start_end_of_seq(bytes);
    } else {
        is_char_boundary_iff_not_is_continuation_byte(bytes, i);
        let byte = bytes[i];
        assert(byte < 128);
        assert(!is_continuation_byte(byte)) by (bit_vector)
            requires
                byte < 128,
        ;
    }
}

/// The part of `text` between two byte offsets that lie on character boundaries.
pub fn substring(text: &str, start: usize, end: usize) -> (part: &str)
    requires
        char_range(encode_utf8(text@), start as int, end as int),
    ensures
        encode_utf8(part@) == encode_utf8(text@).subrange(start as int, end as int),
{
    let ghost bytes = encode_utf8(text@);
    proof {
        encode_utf8_valid_utf8(text@);
        lemma_boundary_in_suffix(bytes, start as int, end as int);
    }
    let (_, rest) = text.split_at(start);
    let (part, _) = rest.split_at(end - start);
    proof {
        assert(encode_utf8(rest@) =~= bytes.subrange(start as int, bytes.len() as int));
        assert(encode_utf8(part@) =~= bytes.subrange(start as int, bytes.len() as int).subrange(
            0,
            end - start,
        ));
        assert(bytes.subrange(start as int, bytes.len() as int).subrange(0, end - start)
            =~= bytes.subrange(start as int, end as int));
    }
    part
}

/// Appends `tail` to `text`; the encoding of the result is the concatenation of encodings.
pub fn push_text(text: &mut String, tail: &str)
    ensures
        final(text)@ == old(text)@ + tail@,
        encode_utf8(final(text)@) == encode_utf8(old(text)@) + encode_utf8(tail@),
{
    text.append(tail);
    proof {
        lemma_encode_concat(old(text)@, tail@);
    }
}

/// Whether two byte slices hold the same bytes.
pub fn same_bytes(a: &[u8], b: &[u8]) -> (same: bool)
    ensures
        same == (a@ == b@),
{
    if a.len() != b.len() {
        return false;
    }
    let mut i: usize = 0;
    while i < a.len()
        invariant
            a@.len() == b@.len(),
            i <= a@.len(),
            forall|k: int| 0 <= k < i ==> a@[k] == b@[k],
        decreases a@.len() - i,
    {
        if a[i] != b[i] {
            return false;
        }
        i = i + 1;
    }
    assert(a@ =~= b@);
    true
}

/// Whether every byte of the slice is trivia.
pub fn bytes_are_trivia(bytes: &[u8]) -> (trivia: bool)
    ensures
        trivia == all_trivia(bytes@),
{
    let mut i: usize = 0;
    while i < bytes.len()
        invariant
            i <= bytes@.len(),
            forall|k: int| 0 <= k < i ==> is_trivia_byte(#[trigger] bytes@[k]),
        decreases bytes@.len() - i,
    {
        let b = bytes[i];
        if !(b == 32 || b == 9 || b == 13 || b == 10) {
            return false;
        }
        i = i + 1;
    }
    true
}

/// Whether `pat` occurs in `bytes` at offset `i`.
pub open spec fn occurs_at(bytes: Seq<u8>, pat: Seq<u8>, i: int) -> bool {
    0 <= i && i + pat.len() <= bytes.len() && bytes.subrange(i, i + pat.len()) == pat
}

/// The first offset at or after `i` where `pat` occurs in `bytes`.
pub open spec fn find_from(bytes: Seq<u8>, pat: Seq<u8>, i: int) -> Option<int>
    decreases bytes.len() + 1 - i,
{
    if i < 0 || i + pat.len() > bytes.len() {
        None
    } else if occurs_at(bytes, pat, i) {
        Some(i)
    } else {
        find_from(bytes, pat, i + 1)
    }
}

/// The first offset where `pat` occurs in `bytes`.
pub open spec fn find_first(bytes: Seq<u8>, pat: Seq<u8>) -> Option<int> {
    find_from(bytes, pat, 0)
}

/// The last offset of the byte `b` in `bytes`.
pub open spec fn find_last_byte(bytes: Seq<u8>, b: u8) -> Option<int>
    decreases bytes.len(),
{
    if bytes.len() == 0 {
        None
    } else if bytes.last() == b {
        Some(bytes.len() - 1)
    } else {
        find_last_byte(bytes.drop_last(), b)
    }
}

/// How many times the byte `b` occurs in `bytes`.
pub open spec fn count_byte(bytes: Seq<u8>, b: u8) -> nat
    decreases bytes.len(),
{
    if bytes.len() == 0 {
        0
    } else {
        count_byte(bytes.drop_last(), b) + if bytes.last() == b {
            1nat
        } else {
            0nat
        }
    }
}

/// The first offset in `bytes[lo..hi]`, relative to `lo`, where `pat` occurs.
pub fn find_in(bytes: &[u8], lo: usize, hi: usize, pat: &[u8]) -> (found: Option<usize>)
    requires
        lo <= hi <= bytes@.len(),
    ensures
        found matches Some(k) ==> find_first(bytes@.subrange(lo as int, hi as int), pat@) == Some(
            k as int,
        ),
        found is None ==> find_first(bytes@.subrange(lo as int, hi as int), pat@) is None,
{
    let ghost hay = bytes@.subrange(lo as int, hi as int);
    if pat.len() > hi - lo {
        return None;
    }
    let last = hi - lo - pat.len();
    let mut i: usize = 0;
    while i <= last
        invariant
            lo <= hi <= bytes@.len(),
            hay == bytes@.subrange(lo as int, hi as int),
            last == hi - lo - pat@.len(),
            i <= last + 1,
            find_from(hay, pat@, 0) == find_from(hay, pat@, i as int),
        decreases last + 1 - i,
    {
        let mut j: usize = 0;
        let mut same = true;
        while j < pat.len()
            invariant
                lo <= hi <= bytes@.len(),
                hay == bytes@.subrange(lo as int, hi as int),
                i <= last,
                last == hi - lo - pat@.len(),
                j <= pat@.len(),
                same == forall|t: int| 0 <= t < j ==> bytes@[lo + i + t] == #[trigger] pat@[t],
            decreases pat@.len() - j,
        {
            if bytes[lo + i + j] != pat[j] {
                same = false;
            }
            j = j + 1;
        }
        proof {
            if same {
                assert(hay.subrange(i as int, i + pat@.len()) =~= pat@);
            } else {
                assert(hay.subrange(i as int, i + pat@.len()) != pat@) by {
                    let t = choose|t: int| 0 <= t < pat@.len() && bytes@[lo + i + t] != #[trigger] pat@[t];
                    assert(hay.subrange(i as int, i + pat@.len())[t] == bytes@[lo + i + t]);
                }
            }
        }
        if same {
            return Some(i);
        }
        i = i + 1;
    }
    None
}

/// The last offset of the byte `b` in `bytes[..hi]`.
pub fn find_last_byte_before(bytes: &[u8], hi: usize, b: u8) -> (found: Option<usize>)
    requires
        hi <= bytes@.len(),
    ensures
        found matches Some(k) ==> find_last_byte(bytes@.subrange(0, hi as int), b) == Some(k as int)
            && k < hi && bytes@[k as int] == b,
        found is None ==> find_last_byte(bytes@.subrange(0, hi as int), b) is None,
{
    let mut i = hi;
    while i > 0
        invariant
            i <= hi <= bytes@.len(),
            find_last_byte(bytes@.subrange(0, hi as int), b) == find_last_byte(
                bytes@.subrange(0, i as int),
                b,
            ),
        decreases i,
    {
        proof {
            assert(bytes@.subrange(0, i as int).drop_last() =~= bytes@.subrange(0, i - 1));
        }
        if bytes[i - 1] == b {
            return Some(i - 1);
        }
        i = i - 1;
    }
    None
}

/// How many times the byte `b` occurs in `bytes[lo..hi]`.
pub fn count_byte_in(bytes: &[u8], lo: usize, hi: usize, b: u8) -> (count: usize)
    requires
        lo <= hi <= bytes@.len(),
    ensures
        count == count_byte(bytes@.subrange(lo as int, hi as int), b),
{
    let mut count: usize = 0;
    let mut i = lo;
    while i < hi
        invariant
            lo <= i <= hi <= bytes@.len(),
            count == count_byte(bytes@.subrange(lo as int, i as int), b),
            count <= i - lo,
        decreases hi - i,
    {
        proof {
            assert(bytes@.subrange(lo as int, i + 1).drop_last() =~= bytes@.subrange(lo as int, i as int));
        }
        if bytes[i] == b {
            count = count + 1;
        }
        i = i + 1;
    }
    count
}

/// In valid UTF-8, the offsets on both sides of an ASCII byte are character boundaries.
pub proof fn lemma_ascii_byte_boundaries(bytes: Seq<u8>, i: int)
    requires
        valid_utf8(bytes),
        0 <= i < bytes.len(),
        bytes[i] < 128,
    ensures
        is_char_boundary(bytes, i),
        is_char_boundary(bytes, i + 1),
{
    is_char_boundary_iff_not_is_continuation_byte(bytes, i);
    if i + 1 == bytes.len() {
        is_char_boundary_start_end_of_seq(bytes);
    } else {
        valid_utf8_split(bytes, i);
        let rest = bytes.subrange(i, bytes.len() as int);
        assert(rest[0] == bytes[i]);
        assert(rest.len() != 0);
        assert(valid_first_scalar(rest) && valid_utf8(pop_first_scalar(rest)));
        assert(length_of_first_scalar(rest) == 1);
        let after = pop_first_scalar(rest);
        assert(after[0] == bytes[i + 1]);
        assert(after.len() != 0);
        assert(valid_first_scalar(after));
        assert(!is_continuation_byte(after[0]));
        is_char_boundary_iff_not_is_continuation_byte(bytes, i + 1);
    }
}

} // verus!
