//! Whitespace-only edit validation and replacement construction.
use vstd::prelude::*;
use vstd::utf8::*;

use crate::model::{ByteRange, Rule};
use crate::slices::{
    all_trivia, bytes_are_trivia, char_range, is_trivia_byte, lemma_ascii_boundaries,
    lemma_visible_concat, lemma_visible_trivia, push_text, same_bytes, substring, visible,
};

verus! {

/// One whitespace replacement expressed in original-source coordinates.
#[derive(Debug, PartialEq, Eq)]
pub struct Edit {
    /// Half-open span to replace in the original normalized source.
    pub range: ByteRange,
    /// Exact whitespace required at the span before applying the edit.
    pub expected: String,
    /// Whitespace to insert in place of the expected bytes.
    pub replacement: String,
    /// Spacing check responsible for this replacement.
    pub rule: Rule,
}

impl Clone for Edit {
    fn clone(&self) -> (copy: Self)
        ensures
            copy == *self,
    {
        Edit {
            range: self.range,
            expected: self.expected.clone(),
            replacement: self.replacement.clone(),
            rule: self.rule,
        }
    }
}

/// The UTF-8 bytes of a string.
pub open spec fn bytes_of(text: Seq<char>) -> Seq<u8> {
    encode_utf8(text)
}

/// Source order of edits: by start offset, then by end offset.
pub open spec fn range_before_or_at(a: Edit, b: Edit) -> bool {
    a.range.start < b.range.start || (a.range.start == b.range.start && a.range.end
        <= b.range.end)
}

/// Inserts an edit into a source-ordered sequence after every edit that does not follow it.
pub open spec fn insert_in_order(sorted: Seq<Edit>, edit: Edit) -> Seq<Edit>
    decreases sorted.len(),
{
    if sorted.len() == 0 {
        seq![edit]
    } else if range_before_or_at(sorted.last(), edit) {
        sorted.push(edit)
    } else {
        insert_in_order(sorted.drop_last(), edit).push(sorted.last())
    }
}

/// The stable sort of edits into source order.
pub open spec fn source_order(edits: Seq<Edit>) -> Seq<Edit>
    decreases edits.len(),
{
    if edits.len() == 0 {
        Seq::empty()
    } else {
        insert_in_order(source_order(edits.drop_last()), edits.last())
    }
}

/// Why a single edit cannot apply to `source`, checking bounds, staleness and whitespace in turn.
pub open spec fn edit_fault(source: Seq<u8>, edit: Edit) -> Option<Seq<char>> {
    let start = edit.range.start as int;
    let end = edit.range.end as int;
    if !char_range(source, start, end) {
        Some("edit is outside source or splits a UTF-8 character"@)
    } else if source.subrange(start, end) != bytes_of(edit.expected@) {
        Some("stale source: expected trivia differs"@)
    } else if !all_trivia(source.subrange(start, end)) || !all_trivia(
        bytes_of(edit.replacement@),
    ) {
        Some("edit would modify a non-whitespace byte"@)
    } else {
        None
    }
}

/// Whether an edit collides with the edit that precedes it in source order:
/// their ranges overlap, or both insert at the same offset.
pub open spec fn collides(prior: Edit, edit: Edit) -> bool {
    prior.range.end > edit.range.start || prior.range.start == edit.range.start
}

/// The first fault found in a source-ordered edit sequence, from position `from` on.
pub open spec fn sequence_fault(source: Seq<u8>, edits: Seq<Edit>, from: int) -> Option<
    Seq<char>,
>
    decreases edits.len() - from,
{
    if from < 0 || from >= edits.len() {
        None
    } else {
        match edit_fault(source, edits[from]) {
            Some(message) => Some(message),
            None => if from > 0 && collides(edits[from - 1], edits[from]) {
                Some("overlapping edits, including competing insertions"@)
            } else {
                sequence_fault(source, edits, from + 1)
            },
        }
    }
}

/// Why an edit set cannot apply to `source`, or `None` when every edit applies.
pub open spec fn edits_fault(source: Seq<u8>, edits: Seq<Edit>) -> Option<Seq<char>> {
    sequence_fault(source, source_order(edits), 0)
}

/// The bytes of `source` from `cursor` on, with each source-ordered edit's span replaced.
pub open spec fn splice(source: Seq<u8>, edits: Seq<Edit>, cursor: int) -> Seq<u8>
    decreases edits.len(),
{
    if edits.len() == 0 {
        source.subrange(cursor, source.len() as int)
    } else {
        source.subrange(cursor, edits[0].range.start as int) + bytes_of(edits[0].replacement@)
            + splice(source, edits.drop_first(), edits[0].range.end as int)
    }
}

/// Whether a byte is an ASCII space, tab, carriage return, or line feed.
pub fn is_trivia(byte: u8) -> (trivia: bool)
    ensures
        trivia == is_trivia_byte(byte),
{
    byte == 32 || byte == 9 || byte == 13 || byte == 10
}

/// The plain values of a sequence of edit references.
pub open spec fn deref_edits(edits: Seq<&Edit>) -> Seq<Edit> {
    edits.map_values(|edit: &Edit| *edit)
}

/// Whether `a` must be placed after `b` in source order.
fn after(a: &Edit, b: &Edit) -> (later: bool)
    ensures
        later == !range_before_or_at(*a, *b),
{
    !(a.range.start < b.range.start || (a.range.start == b.range.start && a.range.end
        <= b.range.end))
}

/// Inserting after exactly the prefix of edits that do not follow the new edit.
proof fn lemma_insert_at(sorted: Seq<Edit>, edit: Edit, position: int)
    requires
        0 <= position <= sorted.len(),
        forall|k: int| position <= k < sorted.len() ==> !range_before_or_at(#[trigger] sorted[k], edit),
        position > 0 ==> range_before_or_at(sorted[position - 1], edit),
    ensures
        insert_in_order(sorted, edit) == sorted.insert(position, edit),
    decreases sorted.len() - position,
{
    if position == sorted.len() {
        if sorted.len() == 0 {
            assert(sorted.insert(position, edit) =~= seq![edit]);
        } else {
            assert(sorted.insert(position, edit) =~= sorted.push(edit));
        }
    } else {
        let rest = sorted.drop_last();
        assert(!range_before_or_at(sorted.last(), edit));
        lemma_insert_at(rest, edit, position);
        assert(rest.insert(position, edit).push(sorted.last()) =~= sorted.insert(position, edit));
    }
}

/// Sorts references to edits into source order, stably.
fn sort_edits<'a>(edits: &'a [Edit]) -> (sorted: Vec<&'a Edit>)
    ensures
        deref_edits(sorted@) == source_order(edits@),
{
    let mut sorted: Vec<&Edit> = Vec::new();
    let mut i: usize = 0;
    while i < edits.len()
        invariant
            i <= edits@.len(),
            deref_edits(sorted@) == source_order(edits@.subrange(0, i as int)),
        decreases edits@.len() - i,
    {
        let edit = &edits[i];
        let mut position = sorted.len();
        while position > 0 && after(sorted[position - 1], edit)
            invariant
                position <= sorted@.len(),
                forall|k: int|
                    position <= k < sorted@.len() ==> !range_before_or_at(
                        #[trigger] deref_edits(sorted@)[k],
                        *edit,
                    ),
            decreases position,
        {
            position = position - 1;
        }
        let ghost before = deref_edits(sorted@);
        proof {
            lemma_insert_at(before, *edit, position as int);
            assert(edits@.subrange(0, i as int + 1).drop_last() =~= edits@.subrange(0, i as int));
        }
        sorted.insert(position, edit);
        proof {
            assert(deref_edits(sorted@) =~= before.insert(position as int, *edit));
        }
        i = i + 1;
    }
    proof {
        assert(edits@.subrange(0, edits@.len() as int) =~= edits@);
    }
    sorted
}

/// The fault of a single edit, computed.
fn check_edit(source: &str, edit: &Edit) -> (fault: Option<String>)
    ensures
        fault is None <==> edit_fault(encode_utf8(source@), *edit) is None,
        fault matches Some(message) ==> edit_fault(encode_utf8(source@), *edit) == Some(message@),
{
    let ghost bytes = encode_utf8(source@);
    let start = edit.range.start;
    let end = edit.range.end;
    let length = source.as_bytes().len();
    if !(start <= end && end <= length && source.is_char_boundary(start)
        && source.is_char_boundary(end)) {
        return Some(String::from_str("edit is outside source or splits a UTF-8 character"));
    }
    let old = substring(source, start, end);
    let expected = edit.expected.as_str();
    if !same_bytes(old.as_bytes(), expected.as_bytes()) {
        return Some(String::from_str("stale source: expected trivia differs"));
    }
    if !bytes_are_trivia(old.as_bytes()) || !bytes_are_trivia(edit.replacement.as_str().as_bytes()) {
        return Some(String::from_str("edit would modify a non-whitespace byte"));
    }
    None
}

/// Validates the complete edit set and returns references in source order.
pub fn validate_edits<'a>(source: &str, edits: &'a [Edit]) -> (result: Result<
    Vec<&'a Edit>,
    String,
>)
    ensures
        result is Ok <==> edits_fault(encode_utf8(source@), edits@) is None,
        result matches Err(message) ==> edits_fault(encode_utf8(source@), edits@) == Some(
            message@,
        ),
        result matches Ok(sorted) ==> deref_edits(sorted@) == source_order(edits@),
{
    let ghost bytes = encode_utf8(source@);
    let sorted = sort_edits(edits);
    let ghost order = deref_edits(sorted@);
    let mut i: usize = 0;
    while i < sorted.len()
        invariant
            i <= sorted@.len(),
            order == deref_edits(sorted@),
            order == source_order(edits@),
            bytes == encode_utf8(source@),
            sequence_fault(bytes, order, 0) == sequence_fault(bytes, order, i as int),
        decreases sorted@.len() - i,
    {
        let edit = sorted[i];
        assert(order[i as int] == *edit);
        if let Some(message) = check_edit(source, edit) {
            return Err(message);
        }
        if i > 0 {
            let prior = sorted[i - 1];
            assert(order[i - 1] == *prior);
            if prior.range.end > edit.range.start || prior.range.start == edit.range.start {
                return Err(String::from_str("overlapping edits, including competing insertions"));
            }
        }
        i = i + 1;
    }
    Ok(sorted)
}

/// A fault-free suffix has no faulty edit and no colliding neighbours.
proof fn lemma_fault_free(source: Seq<u8>, edits: Seq<Edit>, from: int)
    requires
        0 <= from,
        sequence_fault(source, edits, from) is None,
    ensures
        forall|k: int| from <= k < edits.len() ==> edit_fault(source, #[trigger] edits[k]) is None,
        forall|k: int|
            from <= k < edits.len() && k > 0 ==> !collides(edits[k - 1], #[trigger] edits[k]),
    decreases edits.len() - from,
{
    if from < edits.len() {
        lemma_fault_free(source, edits, from + 1);
    }
}

/// Whether a sequence of edits is in source order.
pub open spec fn in_source_order(edits: Seq<Edit>) -> bool {
    forall|i: int, j: int| 0 <= i < j < edits.len() ==> range_before_or_at(#[trigger] edits[i], #[trigger] edits[j])
}

/// Inserting in order adds the edit to the edits held.
proof fn lemma_insert_in_order_multiset(sorted: Seq<Edit>, edit: Edit)
    ensures
        insert_in_order(sorted, edit).to_multiset() == sorted.to_multiset().insert(edit),
    decreases sorted.len(),
{
    broadcast use vstd::seq_lib::group_to_multiset_ensures;

    if sorted.len() == 0 {
        assert(seq![edit] =~= Seq::<Edit>::empty().push(edit));
    } else if range_before_or_at(sorted.last(), edit) {
        assert(sorted =~= sorted.drop_last().push(sorted.last()));
    } else {
        lemma_insert_in_order_multiset(sorted.drop_last(), edit);
        assert(sorted =~= sorted.drop_last().push(sorted.last()));
        assert(insert_in_order(sorted, edit).to_multiset() =~= sorted.to_multiset().insert(edit));
    }
}

/// Inserting in order keeps a source-ordered sequence in source order.
proof fn lemma_insert_in_order_sorted(sorted: Seq<Edit>, edit: Edit)
    requires
        in_source_order(sorted),
    ensures
        in_source_order(insert_in_order(sorted, edit)),
    decreases sorted.len(),
{
    broadcast use vstd::seq_lib::group_to_multiset_ensures;

    if sorted.len() > 0 && !range_before_or_at(sorted.last(), edit) {
        let rest = insert_in_order(sorted.drop_last(), edit);
        lemma_insert_in_order_sorted(sorted.drop_last(), edit);
        lemma_insert_in_order_multiset(sorted.drop_last(), edit);
        assert forall|k: int| 0 <= k < rest.len() implies range_before_or_at(#[trigger] rest[k], sorted.last()) by {
            assert(rest.to_multiset().contains(rest[k]));
            if rest[k] != edit {
                assert(sorted.drop_last().to_multiset().contains(rest[k]));
                let m = choose|m: int| 0 <= m < sorted.drop_last().len() && sorted.drop_last()[m] == rest[k];
                assert(sorted[m] == rest[k]);
                assert(range_before_or_at(sorted[m], sorted[sorted.len() - 1]));
            }
        }
        let result = rest.push(sorted.last());
        assert forall|i: int, j: int| 0 <= i < j < result.len() implies range_before_or_at(
            #[trigger] result[i],
            #[trigger] result[j],
        ) by {
            if j < rest.len() {
                assert(result[i] == rest[i] && result[j] == rest[j]);
            } else {
                assert(result[i] == rest[i]);
            }
        }
    }
}

/// Source order holds the same edits as the input, in source order.
proof fn lemma_source_order(edits: Seq<Edit>)
    ensures
        source_order(edits).to_multiset() == edits.to_multiset(),
        in_source_order(source_order(edits)),
    decreases edits.len(),
{
    broadcast use vstd::seq_lib::group_to_multiset_ensures;

    if edits.len() > 0 {
        lemma_source_order(edits.drop_last());
        lemma_insert_in_order_multiset(source_order(edits.drop_last()), edits.last());
        lemma_insert_in_order_sorted(source_order(edits.drop_last()), edits.last());
        assert(edits =~= edits.drop_last().push(edits.last()));
    }
}

/// Whether the edit at `k` does not collide with the one before it.
pub open spec fn apart(edits: Seq<Edit>, k: int) -> bool {
    !collides(edits[k - 1], edits[k])
}

/// Whether the edits start at strictly increasing offsets.
pub open spec fn strictly_ordered(edits: Seq<Edit>) -> bool {
    forall|a: int, b: int| 0 <= a < b < edits.len() ==> (#[trigger] edits[a]).range.start < (
    #[trigger] edits[b]).range.start
}

/// A fault-free sequence holds no collision at `from`, and is fault free after it.
proof fn lemma_fault_step(source: Seq<u8>, edits: Seq<Edit>, from: int)
    requires
        0 <= from < edits.len(),
        sequence_fault(source, edits, from) is None,
    ensures
        from > 0 ==> apart(edits, from),
        sequence_fault(source, edits, from + 1) is None,
{
}

/// A fault-free sequence holds no collision from `from` on.
proof fn lemma_fault_free_apart(source: Seq<u8>, edits: Seq<Edit>, from: int)
    requires
        0 <= from,
        sequence_fault(source, edits, from) is None,
    ensures
        forall|k: int| from <= k < edits.len() && k > 0 ==> #[trigger] apart(edits, k),
    decreases edits.len() - from,
{
    if from < edits.len() {
        lemma_fault_step(source, edits, from);
        lemma_fault_free_apart(source, edits, from + 1);
    }
}

/// A fault-free source-ordered sequence starts its edits at strictly increasing offsets.
proof fn lemma_fault_free_strict(source: Seq<u8>, edits: Seq<Edit>)
    requires
        in_source_order(edits),
        sequence_fault(source, edits, 0) is None,
    ensures
        strictly_ordered(edits),
{
    lemma_fault_free_apart(source, edits, 0);
    assert forall|a: int, b: int| 0 <= a < b < edits.len() implies (#[trigger] edits[a]).range.start < (
    #[trigger] edits[b]).range.start by {
        assert(apart(edits, b));
        assert(range_before_or_at(edits[b - 1], edits[b]));
        if a < b - 1 {
            assert(range_before_or_at(edits[a], edits[b - 1]));
        }
    }
}

/// Two source-ordered sequences of the same edits are equal when one starts its
/// edits at strictly increasing offsets.
#[verifier::spinoff_prover]
proof fn lemma_source_order_unique(x: Seq<Edit>, y: Seq<Edit>)
    requires
        in_source_order(x),
        in_source_order(y),
        strictly_ordered(x),
        x.to_multiset() == y.to_multiset(),
    ensures
        x == y,
    decreases x.len(),
{
    broadcast use vstd::seq_lib::group_to_multiset_ensures;

    if x.len() == 0 || y.len() == 0 {
        assert(x.len() == x.to_multiset().len());
        assert(y.len() == y.to_multiset().len());
        assert(x =~= y);
    } else {
        assert(x.to_multiset().contains(y[0]));
        assert(y.to_multiset().contains(x[0]));
        let i = choose|i: int| 0 <= i < x.len() && x[i] == y[0];
        let j = choose|j: int| 0 <= j < y.len() && y[j] == x[0];
        if j > 0 {
            assert(range_before_or_at(y[0], y[j]));
        }
        if i > 0 {
            assert(x[0].range.start < x[i].range.start);
        }
        assert(x[0] == y[0]);
        vstd::seq_lib::to_multiset_remove(x, 0);
        vstd::seq_lib::to_multiset_remove(y, 0);
        assert(x.remove(0) =~= x.drop_first());
        assert(y.remove(0) =~= y.drop_first());
        let xs = x.drop_first();
        let ys = y.drop_first();
        assert forall|a: int, b: int| 0 <= a < b < xs.len() implies range_before_or_at(
            #[trigger] xs[a],
            #[trigger] xs[b],
        ) by {
            assert(xs[a] == x[a + 1] && xs[b] == x[b + 1]);
        }
        assert forall|a: int, b: int| 0 <= a < b < ys.len() implies range_before_or_at(
            #[trigger] ys[a],
            #[trigger] ys[b],
        ) by {
            assert(ys[a] == y[a + 1] && ys[b] == y[b + 1]);
        }
        assert forall|a: int, b: int| 0 <= a < b < xs.len() implies (#[trigger] xs[a]).range.start < (
        #[trigger] xs[b]).range.start by {
            assert(xs[a] == x[a + 1] && xs[b] == x[b + 1]);
        }
        lemma_source_order_unique(xs, ys);
        assert(x.len() == y.len());
        assert forall|k: int| 0 <= k < x.len() implies x[k] == y[k] by {
            if k > 0 {
                assert(x[k] == xs[k - 1] && y[k] == ys[k - 1]);
            }
        }
        assert(x =~= y);
    }
}

/// Applying edits does not depend on the order in which they are given: any
/// arrangement of an edit set that applies to `source` puts the edits in the
/// same source order and applies alike; and no edit leaves the source as it is.
pub proof fn lemma_edit_order_irrelevant(source: Seq<u8>, edits: Seq<Edit>, other: Seq<Edit>)
    requires
        edits_fault(source, edits) is None,
        other.to_multiset() == edits.to_multiset(),
    ensures
        source_order(other) == source_order(edits),
        edits_fault(source, other) is None,
        splice(source, source_order(other), 0) == splice(source, source_order(edits), 0),
        splice(source, source_order(Seq::<Edit>::empty()), 0) == source,
{
    lemma_source_order(edits);
    lemma_source_order(other);
    lemma_fault_free_strict(source, source_order(edits));
    lemma_source_order_unique(source_order(edits), source_order(other));
    assert(source.subrange(0, source.len() as int) =~= source);
}

/// Accepted edits change only whitespace: splicing edits that have no fault
/// into a source keeps its code, comments and literals, every byte that is not
/// whitespace, in order.
pub proof fn lemma_accepted_edits_keep_code(source: Seq<u8>, edits: Seq<Edit>)
    requires
        edits_fault(source, edits) is None,
    ensures
        visible(splice(source, source_order(edits), 0)) == visible(source),
{
    let ordered = source_order(edits);
    lemma_splice_visible(source, ordered, 0, 0);
    assert(ordered.subrange(0, ordered.len() as int) =~= ordered);
    assert(source.subrange(0, source.len() as int) =~= source);
}

/// Splicing validated, source-ordered edits keeps exactly the visible bytes of the
/// source that follow the cursor.
proof fn lemma_splice_visible(source: Seq<u8>, edits: Seq<Edit>, from: int, cursor: int)
    requires
        0 <= from <= edits.len(),
        sequence_fault(source, edits, from) is None,
        0 <= cursor <= source.len(),
        from < edits.len() ==> cursor <= edits[from].range.start,
        from > 0 && from < edits.len() ==> !collides(edits[from - 1], edits[from]),
    ensures
        visible(splice(source, edits.subrange(from, edits.len() as int), cursor)) == visible(
            source.subrange(cursor, source.len() as int),
        ),
    decreases edits.len() - from,
{
    let rest = edits.subrange(from, edits.len() as int);
    if from == edits.len() {
        assert(rest.len() == 0);
    } else {
        let edit = edits[from];
        let start = edit.range.start as int;
        let end = edit.range.end as int;
        assert(edit_fault(source, edit) is None);
        assert(rest[0] == edit);
        assert(rest.drop_first() =~= edits.subrange(from + 1, edits.len() as int));
        lemma_fault_free(source, edits, from);
        if from + 1 < edits.len() {
            assert(!collides(edits[from], edits[from + 1]));
        }
        lemma_splice_visible(source, edits, from + 1, end);
        let head = source.subrange(cursor, start);
        let middle = source.subrange(start, end);
        let tail = source.subrange(end, source.len() as int);
        let replacement = bytes_of(edit.replacement@);
        lemma_visible_trivia(middle);
        lemma_visible_trivia(replacement);
        lemma_visible_concat(head, replacement);
        lemma_visible_concat(head + replacement, splice(source, rest.drop_first(), end));
        lemma_visible_concat(head, middle);
        lemma_visible_concat(head + middle, tail);
        assert(head + middle + tail =~= source.subrange(cursor, source.len() as int));
        assert(visible(head) + Seq::<u8>::empty() =~= visible(head));
    }
}

/// Applies edits using their original-source coordinates.
///
/// Rejects invalid UTF-8 boundaries, out-of-bounds or overlapping ranges, stale
/// expected text, and any edit containing non-whitespace bytes. On success the
/// edited text differs from the source only in whitespace.
pub fn apply_edits(source: &str, edits: &[Edit]) -> (result: Result<String, String>)
    ensures
        result is Ok <==> edits_fault(encode_utf8(source@), edits@) is None,
        result matches Err(message) ==> edits_fault(encode_utf8(source@), edits@) == Some(
            message@,
        ),
        result matches Ok(text) ==> encode_utf8(text@) == splice(
            encode_utf8(source@),
            source_order(edits@),
            0,
        ),
        result matches Ok(text) ==> visible(encode_utf8(text@)) == visible(encode_utf8(source@)),
{
    let ghost bytes = encode_utf8(source@);
    let sorted = validate_edits(source, edits)?;
    let ghost order = deref_edits(sorted@);
    let mut result = String::new();
    let mut cursor: usize = 0;
    let mut i: usize = 0;
    proof {
        encode_utf8_valid_utf8(source@);
        is_char_boundary_start_end_of_seq(bytes);
        assert(sequence_fault(bytes, order, 0) is None);
        lemma_fault_free(bytes, order, 0);
        assert(order.subrange(0, order.len() as int) =~= order);
        assert(Seq::<u8>::empty() + splice(bytes, order, 0) =~= splice(bytes, order, 0));
    }
    while i < sorted.len()
        invariant
            i <= sorted@.len(),
            order == deref_edits(sorted@),
            bytes == encode_utf8(source@),
            forall|k: int| 0 <= k < order.len() ==> edit_fault(bytes, #[trigger] order[k]) is None,
            forall|k: int|
                0 < k < order.len() ==> !collides(order[k - 1], #[trigger] order[k]),
            char_range(bytes, cursor as int, cursor as int),
            i < order.len() ==> cursor <= order[i as int].range.start,
            encode_utf8(result@) + splice(
                bytes,
                order.subrange(i as int, order.len() as int),
                cursor as int,
            ) == splice(bytes, order, 0),
        decreases sorted@.len() - i,
    {
        let edit = sorted[i];
        let ghost rest = order.subrange(i as int, order.len() as int);
        assert(rest[0] == *edit);
        assert(edit_fault(bytes, *edit) is None);
        let start = edit.range.start;
        let old_cursor = cursor;
        let piece = substring(source, cursor, start);
        let ghost before = encode_utf8(result@);
        push_text(&mut result, piece);
        push_text(&mut result, edit.replacement.as_str());
        cursor = edit.range.end;
        i = i + 1;
        proof {
            let piece_bytes = bytes.subrange(old_cursor as int, edit.range.start as int);
            let replacement = bytes_of(edit.replacement@);
            let later = splice(bytes, rest.drop_first(), edit.range.end as int);
            assert(rest.drop_first() =~= order.subrange(i as int, order.len() as int));
            assert(splice(bytes, rest, old_cursor as int) == piece_bytes + replacement + later);
            assert(encode_utf8(result@) == before + piece_bytes + replacement);
            assert(before + piece_bytes + replacement + later =~= before + (piece_bytes
                + replacement + later));
            if i < order.len() {
                assert(!collides(order[i - 1], order[i as int]));
            }
        }
    }
    let tail = substring(source, cursor, source.as_bytes().len());
    push_text(&mut result, tail);
    proof {
        assert(order.subrange(i as int, order.len() as int).len() == 0);
        lemma_splice_visible(bytes, order, 0, 0);
        assert(order.subrange(0, order.len() as int) =~= order);
        assert(bytes.subrange(0, bytes.len() as int) =~= bytes);
    }
    Ok(result)
}

/// Whether `first` and `last` are the offsets of the first and last line feed of `gap`.
pub open spec fn newline_bounds(gap: Seq<u8>, first: int, last: int) -> bool {
    &&& 0 <= first <= last < gap.len()
    &&& gap[first] == 10
    &&& gap[last] == 10
    &&& forall|k: int| 0 <= k < first ==> #[trigger] gap[k] != 10
    &&& forall|k: int| last < k < gap.len() ==> #[trigger] gap[k] != 10
}

/// `count` line feeds.
pub open spec fn line_feeds(count: nat) -> Seq<u8> {
    Seq::new(count, |_i: int| 10u8)
}

/// The encoding of a line feed.
proof fn lemma_line_feed()
    ensures
        encode_utf8("\n"@) == seq![10u8],
{
    reveal_strlit("\n");
    assert("\n"@ =~= seq!['\n']);
    let c: u32 = 10;
    assert(('\n' as u32) == 10);
    assert((c & 0x7F) as u8 == 10u8) by (bit_vector)
        requires
            c == 10,
    ;
    assert(encode_scalar(10u32) =~= seq![10u8]);
    let line = seq!['\n'];
    assert(line.drop_first() =~= Seq::<char>::empty());
    assert(encode_utf8(line) =~= encode_scalar(line[0] as u32) + encode_utf8(line.drop_first()));
}

/// Changes only blank lines: retains the first line break and the indentation that
/// follows the last one, with exactly `blank_lines` empty lines between them.
///
/// Refuses gaps with non-whitespace bytes and compact same-line layouts, rather than
/// inventing a formatter's indentation.
pub fn blank_line_replacement(gap: &str, blank_lines: usize) -> (result: Option<String>)
    ensures
        result is Some <==> all_trivia(encode_utf8(gap@)) && encode_utf8(gap@).contains(10u8),
        result matches Some(text) ==> exists|first: int, last: int|
            newline_bounds(encode_utf8(gap@), first, last) && encode_utf8(text@) == encode_utf8(
                gap@,
            ).subrange(0, first + 1) + line_feeds(blank_lines as nat) + encode_utf8(
                gap@,
            ).subrange(last + 1, encode_utf8(gap@).len() as int),
{
    let bytes = gap.as_bytes();
    let ghost g = encode_utf8(gap@);
    if !bytes_are_trivia(bytes) {
        return None;
    }
    let mut first: usize = 0;
    while first < bytes.len() && bytes[first] != 10
        invariant
            first <= bytes@.len(),
            bytes@ == g,
            forall|k: int| 0 <= k < first ==> #[trigger] g[k] != 10,
        decreases bytes@.len() - first,
    {
        first = first + 1;
    }
    if first == bytes.len() {
        proof {
            if g.contains(10u8) {
                let k = choose|k: int| 0 <= k < g.len() && g[k] == 10u8;
                assert(g[k] != 10);
            }
        }
        return None;
    }
    let mut last: usize = bytes.len() - 1;
    while bytes[last] != 10
        invariant
            first <= last < bytes@.len(),
            bytes@ == g,
            g[first as int] == 10,
            forall|k: int| last < k < g.len() ==> #[trigger] g[k] != 10,
        decreases last,
    {
        last = last - 1;
    }
    proof {
        encode_utf8_valid_utf8(gap@);
        assert forall|k: int| 0 <= k < g.len() implies #[trigger] g[k] < 128 by {
            assert(is_trivia_byte(g[k]));
        }
        lemma_ascii_boundaries(g, 0);
        lemma_ascii_boundaries(g, first as int + 1);
        lemma_ascii_boundaries(g, last as int + 1);
        lemma_ascii_boundaries(g, g.len() as int);
        lemma_line_feed();
    }
    let prefix = substring(gap, 0, first + 1);
    let suffix = substring(gap, last + 1, bytes.len());
    let mut result = String::new();
    push_text(&mut result, prefix);
    let mut added: usize = 0;
    while added < blank_lines
        invariant
            added <= blank_lines,
            encode_utf8(result@) == g.subrange(0, first + 1) + line_feeds(added as nat),
            encode_utf8("\n"@) == seq![10u8],
        decreases blank_lines - added,
    {
        let ghost before = encode_utf8(result@);
        push_text(&mut result, "\n");
        added = added + 1;
        proof {
            assert(encode_utf8(result@) =~= g.subrange(0, first + 1) + line_feeds(added as nat));
        }
    }
    push_text(&mut result, suffix);
    proof {
        assert(newline_bounds(g, first as int, last as int));
    }
    Some(result)
}

} // verus!
