//! Machine-applicable compiler suggestions for spacing lints: which diagnostics
//! are this tool's, which suggested edits are acceptable, and how one file's
//! accepted edits are applied.
use vstd::prelude::*;
use vstd::string::StringExecFns;

use crate::slices::{all_trivia, bytes_are_trivia, same_bytes};
use crate::syntax::comments::slice_of;
use crate::syntax::tree::same_text;

verus! {

/// Whether a diagnostic code names one of the spacing lints.
pub open spec fn spacing_rule_code(code: Seq<char>) -> bool {
    ||| code == "statement_spacing_bindings"@
    ||| code == "statement_spacing_expressions"@
    ||| code == "statement_spacing_control_flow"@
    ||| code == "statement_spacing_after_block"@
    ||| code == "statement_spacing_exit"@
    ||| code == "statement_spacing_result_check"@
    ||| code == "statement_spacing_item_spacing"@
    ||| code == "statement_spacing_layout"@
}

/// Whether a diagnostic code names one of the spacing lints.
pub fn spacing_rule(rule: &str) -> (ours: bool)
    ensures
        ours == spacing_rule_code(rule@),
{
    same_text(rule, "statement_spacing_bindings") || same_text(
        rule,
        "statement_spacing_expressions",
    ) || same_text(rule, "statement_spacing_control_flow") || same_text(
        rule,
        "statement_spacing_after_block",
    ) || same_text(rule, "statement_spacing_exit") || same_text(
        rule,
        "statement_spacing_result_check",
    ) || same_text(rule, "statement_spacing_item_spacing") || same_text(
        rule,
        "statement_spacing_layout",
    )
}

/// One accepted whitespace suggestion for a workspace file.
#[derive(Debug, PartialEq, Eq)]
pub struct FileEdit {
    /// Workspace-relative path of the file.
    pub relative: String,
    /// Byte offset where the replaced text starts.
    pub start: usize,
    /// Byte offset where the replaced text ends.
    pub end: usize,
    /// The bytes that the edit replaces.
    pub before: Vec<u8>,
    /// The replacement bytes.
    pub after: Vec<u8>,
    /// The lint whose suggestion this is.
    pub rule: String,
}

/// The bytes of a text with `text[start..end]` replaced by `after`.
pub open spec fn replace_range(text: Seq<u8>, start: int, end: int, after: Seq<u8>) -> Seq<u8> {
    text.subrange(0, start) + after + text.subrange(end, text.len() as int)
}

/// Whether an edit fits a file and replaces exactly the bytes it expects.
pub open spec fn edit_applies(text: Seq<u8>, edit: FileEdit) -> bool {
    edit.start <= edit.end <= text.len() && text.subrange(edit.start as int, edit.end as int)
        == edit.before@
}

/// A file's bytes after applying `edits[k..]` in order; `None` at the first
/// edit that does not apply.
pub open spec fn apply_from(text: Seq<u8>, edits: Seq<FileEdit>, k: int) -> Option<Seq<u8>>
    decreases edits.len() - k,
{
    if k < 0 || k >= edits.len() {
        Some(text)
    } else if edit_applies(text, edits[k]) {
        apply_from(
            replace_range(text, edits[k].start as int, edits[k].end as int, edits[k].after@),
            edits,
            k + 1,
        )
    } else {
        None
    }
}

/// `sorted` with `edit` placed after every entry that starts at or after it: a
/// stable insertion by descending start.
pub open spec fn insert_descending(sorted: Seq<FileEdit>, edit: FileEdit) -> Seq<FileEdit>
    decreases sorted.len(),
{
    if sorted.len() == 0 {
        seq![edit]
    } else if sorted.last().start < edit.start {
        insert_descending(sorted.drop_last(), edit).push(sorted.last())
    } else {
        sorted.push(edit)
    }
}

/// Edits ordered by descending start, equal starts keeping their order.
pub open spec fn descending_by_start(edits: Seq<FileEdit>) -> Seq<FileEdit>
    decreases edits.len(),
{
    if edits.len() == 0 {
        Seq::empty()
    } else {
        insert_descending(descending_by_start(edits.drop_last()), edits.last())
    }
}

/// Copies an edit.
fn copy_edit(edit: &FileEdit) -> (copy: FileEdit)
    ensures
        copy.relative@ == edit.relative@,
        copy.start == edit.start,
        copy.end == edit.end,
        copy.before@ == edit.before@,
        copy.after@ == edit.after@,
        copy.rule@ == edit.rule@,
{
    FileEdit {
        relative: edit.relative.clone(),
        start: edit.start,
        end: edit.end,
        before: edit.before.clone(),
        after: edit.after.clone(),
        rule: edit.rule.clone(),
    }
}

/// Whether two edits carry the same values.
pub open spec fn same_edit(a: FileEdit, b: FileEdit) -> bool {
    a.relative@ == b.relative@ && a.start == b.start && a.end == b.end && a.before@ == b.before@
        && a.after@ == b.after@ && a.rule@ == b.rule@
}

/// Whether two edit lists carry the same values, entry by entry.
pub open spec fn same_edits(a: Seq<FileEdit>, b: Seq<FileEdit>) -> bool {
    a.len() == b.len() && forall|k: int| 0 <= k < a.len() ==> same_edit(#[trigger] a[k], b[k])
}

/// Inserts `edit` into a list ordered by descending start, after the entries
/// that start at or after it.
fn insert_by_start(sorted: &mut Vec<FileEdit>, edit: FileEdit)
    ensures
        same_edits(final(sorted)@, insert_descending(old(sorted)@, edit)),
    decreases old(sorted)@.len(),
{
    if sorted.len() == 0 {
        sorted.push(edit);
        return;
    }
    if sorted[sorted.len() - 1].start < edit.start {
        let last = sorted.pop().unwrap();
        let ghost rest = sorted@;
        insert_by_start(sorted, edit);
        let ghost inserted = sorted@;
        sorted.push(last);
        proof {
            assert(old(sorted)@.drop_last() =~= rest);
            assert forall|k: int| 0 <= k < sorted@.len() implies same_edit(
                #[trigger] sorted@[k],
                insert_descending(old(sorted)@, edit)[k],
            ) by {
                if k < inserted.len() {
                    assert(sorted@[k] == inserted[k]);
                }
            }
        }
    } else {
        sorted.push(edit);
        proof {
            assert forall|k: int| 0 <= k < sorted@.len() implies same_edit(
                #[trigger] sorted@[k],
                insert_descending(old(sorted)@, edit)[k],
            ) by {}
        }
    }
}

/// Applies one file's accepted edits, from the last offset to the first; fails
/// on the first edit whose expected bytes are no longer in the file.
pub fn apply_file_edits(name: &str, data: &Vec<u8>, edits: &Vec<FileEdit>) -> (result: Result<
    Vec<u8>,
    String,
>)
    ensures
        match result {
            Ok(text) => apply_from(data@, descending_by_start(edits@), 0) == Some(text@),
            Err(message) => message@ == "stale suggestion in "@ + name@ && apply_from(
                data@,
                descending_by_start(edits@),
                0,
            ) is None,
        },
{
    let mut order: Vec<FileEdit> = Vec::new();
    let mut k: usize = 0;
    while k < edits.len()
        invariant
            k <= edits@.len(),
            same_edits(order@, descending_by_start(edits@.subrange(0, k as int))),
        decreases edits@.len() - k,
    {
        let ghost before = order@;
        let copy = copy_edit(&edits[k]);
        let ghost copied = copy;
        insert_by_start(&mut order, copy);
        proof {
            assert(edits@.subrange(0, k + 1).drop_last() =~= edits@.subrange(0, k as int));
            assert(edits@.subrange(0, k + 1).last() == edits@[k as int]);
            lemma_insert_same(
                before,
                descending_by_start(edits@.subrange(0, k as int)),
                copied,
                edits@[k as int],
            );
            lemma_same_trans(
                order@,
                insert_descending(before, copied),
                descending_by_start(edits@.subrange(0, k + 1)),
            );
        }
        k = k + 1;
    }
    proof {
        assert(edits@.subrange(0, edits@.len() as int) =~= edits@);
        lemma_apply_same(data@, order@, descending_by_start(edits@), 0);
    }
    let mut text: Vec<u8> = data.clone();
    let mut j: usize = 0;
    while j < order.len()
        invariant
            j <= order@.len(),
            apply_from(data@, order@, 0) == apply_from(text@, order@, j as int),
            apply_from(data@, order@, 0) == apply_from(data@, descending_by_start(edits@), 0),
        decreases order@.len() - j,
    {
        let edit = &order[j];
        let fits = edit.start <= edit.end && edit.end <= text.len();
        if !fits || !same_bytes(slice_of(text.as_slice(), edit.start, edit.end), edit.before.as_slice()) {
            proof {
                assert(!edit_applies(text@, order@[j as int]));
            }
            let mut message = String::from_str("stale suggestion in ");
            message.append(name);
            return Err(message);
        }
        let mut next: Vec<u8> = Vec::new();
        let mut i: usize = 0;
        while i < edit.start
            invariant
                i <= edit.start <= edit.end <= text@.len(),
                next@ == text@.subrange(0, i as int),
            decreases edit.start - i,
        {
            next.push(text[i]);
            i = i + 1;
        }
        let mut a: usize = 0;
        while a < edit.after.len()
            invariant
                a <= edit.after@.len(),
                edit.start <= edit.end <= text@.len(),
                next@ == text@.subrange(0, edit.start as int) + edit.after@.subrange(0, a as int),
            decreases edit.after@.len() - a,
        {
            next.push(edit.after[a]);
            a = a + 1;
        }
        let mut t = edit.end;
        while t < text.len()
            invariant
                edit.end <= t <= text@.len(),
                edit.start <= edit.end,
                next@ == text@.subrange(0, edit.start as int) + edit.after@ + text@.subrange(
                    edit.end as int,
                    t as int,
                ),
            decreases text@.len() - t,
        {
            next.push(text[t]);
            t = t + 1;
        }
        proof {
            assert(edit.after@.subrange(0, edit.after@.len() as int) =~= edit.after@);
            assert(next@ =~= replace_range(text@, edit.start as int, edit.end as int, edit.after@));
        }
        text = next;
        j = j + 1;
    }
    Ok(text)
}

/// Applying value-equal edit lists gives the same result.
proof fn lemma_apply_same(text: Seq<u8>, a: Seq<FileEdit>, b: Seq<FileEdit>, k: int)
    requires
        same_edits(a, b),
    ensures
        apply_from(text, a, k) == apply_from(text, b, k),
    decreases a.len() - k,
{
    if 0 <= k < a.len() {
        assert(same_edit(a[k], b[k]));
        if edit_applies(text, a[k]) {
            lemma_apply_same(
                replace_range(text, a[k].start as int, a[k].end as int, a[k].after@),
                a,
                b,
                k + 1,
            );
        }
    }
}

/// Insertion preserves value-equality of the lists and of the inserted edit.
proof fn lemma_insert_same(a: Seq<FileEdit>, b: Seq<FileEdit>, e: FileEdit, f: FileEdit)
    requires
        same_edits(a, b),
        same_edit(e, f),
    ensures
        same_edits(insert_descending(a, e), insert_descending(b, f)),
    decreases a.len(),
{
    if a.len() > 0 {
        assert(same_edit(a[a.len() - 1], b[b.len() - 1]));
        assert(same_edits(a.drop_last(), b.drop_last()));
        lemma_insert_same(a.drop_last(), b.drop_last(), e, f);
        let x = insert_descending(a, e);
        let y = insert_descending(b, f);
        assert forall|k: int| 0 <= k < x.len() implies same_edit(#[trigger] x[k], y[k]) by {}
    }
}

/// Value-equality of edit lists is transitive.
proof fn lemma_same_trans(a: Seq<FileEdit>, b: Seq<FileEdit>, c: Seq<FileEdit>)
    requires
        same_edits(a, b),
        same_edits(b, c),
    ensures
        same_edits(a, c),
{
    assert forall|k: int| 0 <= k < a.len() implies same_edit(#[trigger] a[k], c[k]) by {
        assert(same_edit(a[k], b[k]));
        assert(same_edit(b[k], c[k]));
    }
}

/// Whether every byte of a sequence is a space, tab, carriage return or line feed.
pub open spec fn whitespace_suggestion(before: Seq<u8>, after: Seq<u8>) -> bool {
    all_trivia(before) && all_trivia(after)
}

/// Accepts a machine-applicable suggestion for `data`, the bytes of the file
/// `relative`: its range must lie within the file, and both the replaced bytes
/// and the replacement must be whitespace.
pub fn accept_suggestion(
    relative: &str,
    data: &[u8],
    start: u64,
    end: u64,
    replacement: &str,
    rule: &str,
) -> (result: Result<FileEdit, String>)
    ensures
        match result {
            Ok(edit) => start <= end <= data@.len() && whitespace_suggestion(
                data@.subrange(start as int, end as int),
                vstd::utf8::encode_utf8(replacement@),
            ) && edit.relative@ == relative@ && edit.start == start && edit.end == end
                && edit.before@ == data@.subrange(start as int, end as int) && edit.after@
                == vstd::utf8::encode_utf8(replacement@) && edit.rule@ == rule@,
            Err(message) => if !(start <= end <= data@.len()) {
                message@ == "invalid suggestion byte range in "@ + relative@
            } else {
                !whitespace_suggestion(
                    data@.subrange(start as int, end as int),
                    vstd::utf8::encode_utf8(replacement@),
                ) && message@ == "non-whitespace suggestion was rejected in "@ + relative@
            },
        },
{
    if !(start <= end && end <= data.len() as u64) {
        let mut message = String::from_str("invalid suggestion byte range in ");
        message.append(relative);
        return Err(message);
    }
    let s = start as usize;
    let e = end as usize;
    let before = slice_of(data, s, e);
    let after = replacement.as_bytes();
    if !(bytes_are_trivia(before) && bytes_are_trivia(after)) {
        let mut message = String::from_str("non-whitespace suggestion was rejected in ");
        message.append(relative);
        return Err(message);
    }
    Ok(
        FileEdit {
            relative: String::from_str(relative),
            start: s,
            end: e,
            before: vstd::slice::slice_to_vec(before),
            after: vstd::slice::slice_to_vec(after),
            rule: String::from_str(rule),
        },
    )
}

/// Whether an ordered pair of edits of one file overlaps or starts at the same offset.
pub open spec fn clashes(previous: FileEdit, current: FileEdit) -> bool {
    previous.relative@ == current.relative@ && (previous.end > current.start || previous.start
        == current.start)
}

/// Rejects an ordered list of edits in which two consecutive edits of one file
/// overlap or start at the same offset, naming the file of the first such pair.
pub fn check_overlaps(edits: &Vec<FileEdit>) -> (result: Result<(), String>)
    ensures
        match result {
            Ok(()) => forall|k: int|
                0 < k < edits@.len() ==> !clashes(edits@[k - 1], #[trigger] edits@[k]),
            Err(message) => exists|k: int|
                0 < k < edits@.len() && clashes(edits@[k - 1], #[trigger] edits@[k]) && (forall|
                    j: int,
                | 0 < j < k ==> !clashes(edits@[j - 1], #[trigger] edits@[j])) && message@
                    == "overlapping suggestions in "@ + edits@[k].relative@,
        },
{
    let mut k: usize = 1;
    while k < edits.len()
        invariant
            1 <= k,
            forall|j: int| 0 < j < k && j < edits@.len() ==> !clashes(edits@[j - 1], #[trigger] edits@[j]),
        decreases edits@.len() - k,
    {
        let previous = &edits[k - 1];
        let current = &edits[k];
        if previous.relative == current.relative && (previous.end > current.start
            || previous.start == current.start) {
            let mut message = String::from_str("overlapping suggestions in ");
            message.append(current.relative.as_str());
            return Err(message);
        }
        k = k + 1;
    }
    Ok(())
}

/// Byte-wise lexicographic order, as `String`'s `Ord` compares.
pub open spec fn bytes_less(a: Seq<u8>, b: Seq<u8>) -> bool
    decreases a.len(),
{
    if a.len() == 0 {
        b.len() > 0
    } else if b.len() == 0 {
        false
    } else if a[0] != b[0] {
        a[0] < b[0]
    } else {
        bytes_less(a.drop_first(), b.drop_first())
    }
}

/// Lexicographic order is transitive.
pub proof fn lemma_bytes_less_trans(a: Seq<u8>, b: Seq<u8>, c: Seq<u8>)
    requires
        bytes_less(a, b),
        bytes_less(b, c),
    ensures
        bytes_less(a, c),
    decreases a.len(),
{
    if a.len() > 0 && b.len() > 0 && c.len() > 0 && a[0] == b[0] && b[0] == c[0] {
        lemma_bytes_less_trans(a.drop_first(), b.drop_first(), c.drop_first());
    }
}

/// Lexicographic order is total and irreflexive.
pub proof fn lemma_bytes_less_total(a: Seq<u8>, b: Seq<u8>)
    ensures
        !bytes_less(a, a),
        a != b ==> bytes_less(a, b) || bytes_less(b, a),
        !(bytes_less(a, b) && bytes_less(b, a)),
    decreases a.len(),
{
    if a.len() > 0 && b.len() > 0 {
        lemma_bytes_less_total(a.drop_first(), b.drop_first());
        lemma_bytes_less_total(a.drop_first(), a.drop_first());
        if a[0] == b[0] && a != b {
            assert(a.drop_first() != b.drop_first()) by {
                if a.drop_first() == b.drop_first() {
                    assert(a =~= seq![a[0]] + a.drop_first());
                    assert(b =~= seq![b[0]] + b.drop_first());
                    assert(a == b);
                }
            }
        }
    } else if a.len() > 0 {
        lemma_bytes_less_total(a.drop_first(), a.drop_first());
    } else if b.len() > 0 {
        assert(a.len() == 0);
    } else {
        assert(a =~= b);
    }
}

/// The order of edits by file, then start, then end.
pub open spec fn key_less(a: FileEdit, b: FileEdit) -> bool {
    let (x, y) = (a.relative@, b.relative@);
    bytes_less(vstd::utf8::encode_utf8(x), vstd::utf8::encode_utf8(y)) || (x == y && (a.start
        < b.start || (a.start == b.start && a.end < b.end)))
}

/// Whether two edits target the same file and range.
pub open spec fn same_key(a: FileEdit, b: FileEdit) -> bool {
    a.relative@ == b.relative@ && a.start == b.start && a.end == b.end
}

/// Whether edits are in strictly increasing key order.
pub open spec fn ordered(edits: Seq<FileEdit>) -> bool {
    forall|i: int, j: int| 0 <= i < j < edits.len() ==> key_less(#[trigger] edits[i], #[trigger] edits[j])
}

/// The order of edits is transitive.
proof fn lemma_key_less_trans(a: FileEdit, b: FileEdit, c: FileEdit)
    requires
        key_less(a, b),
        key_less(b, c),
    ensures
        key_less(a, c),
{
    let (x, y, z) = (
        vstd::utf8::encode_utf8(a.relative@),
        vstd::utf8::encode_utf8(b.relative@),
        vstd::utf8::encode_utf8(c.relative@),
    );
    if bytes_less(x, y) && bytes_less(y, z) {
        lemma_bytes_less_trans(x, y, z);
    }
}

/// Distinct keys are ordered one way or the other, never both.
proof fn lemma_key_less_total(a: FileEdit, b: FileEdit)
    ensures
        !key_less(a, a),
        !same_key(a, b) ==> key_less(a, b) || key_less(b, a),
        !(key_less(a, b) && key_less(b, a)),
{
    let (x, y) = (vstd::utf8::encode_utf8(a.relative@), vstd::utf8::encode_utf8(b.relative@));
    lemma_bytes_less_total(x, y);
    lemma_bytes_less_total(y, x);
    vstd::utf8::encode_utf8_decode_utf8(a.relative@);
    vstd::utf8::encode_utf8_decode_utf8(b.relative@);
}

/// Whether the bytes of `a` sort before those of `b`.
pub fn text_less(a: &str, b: &str) -> (less: bool)
    ensures
        less == bytes_less(vstd::utf8::encode_utf8(a@), vstd::utf8::encode_utf8(b@)),
{
    let x = a.as_bytes();
    let y = b.as_bytes();
    let mut i: usize = 0;
    proof {
        assert(x@.subrange(0, x@.len() as int) =~= x@);
        assert(y@.subrange(0, y@.len() as int) =~= y@);
    }
    while i < x.len() && i < y.len() && x[i] == y[i]
        invariant
            i <= x@.len(),
            i <= y@.len(),
            bytes_less(x@, y@) == bytes_less(
                x@.subrange(i as int, x@.len() as int),
                y@.subrange(i as int, y@.len() as int),
            ),
        decreases x@.len() - i,
    {
        proof {
            let xs = x@.subrange(i as int, x@.len() as int);
            let ys = y@.subrange(i as int, y@.len() as int);
            assert(xs[0] == x@[i as int] && ys[0] == y@[i as int]);
            assert(xs.drop_first() =~= x@.subrange(i + 1, x@.len() as int));
            assert(ys.drop_first() =~= y@.subrange(i + 1, y@.len() as int));
        }
        i = i + 1;
    }
    proof {
        let xs = x@.subrange(i as int, x@.len() as int);
        let ys = y@.subrange(i as int, y@.len() as int);
        if i < x@.len() && i < y@.len() {
            assert(xs[0] == x@[i as int] && ys[0] == y@[i as int]);
        }
    }
    if i < x.len() && i < y.len() {
        x[i] < y[i]
    } else {
        i == x.len() && i < y.len()
    }
}

/// Whether `a` sorts before `b` by file, start and end.
fn key_before(a: &FileEdit, b: &FileEdit) -> (before: bool)
    ensures
        before == key_less(*a, *b),
{
    let less = text_less(a.relative.as_str(), b.relative.as_str());
    less || (a.relative == b.relative && (a.start < b.start || (a.start == b.start && a.end < b.end)))
}

/// Records an accepted edit in a list ordered by file and range. An edit for
/// the same file and range replaces the recorded one when both replace the
/// same bytes with the same bytes, and is rejected otherwise.
pub fn record_edit(edits: &mut Vec<FileEdit>, edit: FileEdit) -> (result: Result<(), String>)
    requires
        ordered(old(edits)@),
    ensures
        ordered(final(edits)@),
        match result {
            Ok(()) => exists|p: int|
                0 <= p < final(edits)@.len() && same_edit(#[trigger] final(edits)@[p], edit) && (
                if p < old(edits)@.len() && same_key(old(edits)@[p], edit) {
                    final(edits)@ == old(edits)@.update(p, final(edits)@[p])
                } else {
                    final(edits)@ == old(edits)@.insert(p, final(edits)@[p])
                }),
            Err(message) => final(edits)@ == old(edits)@ && exists|p: int|
                0 <= p < old(edits)@.len() && same_key(#[trigger] old(edits)@[p], edit) && (old(
                    edits,
                )@[p].before@ != edit.before@ || old(edits)@[p].after@ != edit.after@) && message@
                    == "conflicting target-specific suggestions in "@ + edit.relative@,
        },
{
    let ghost original = edits@;
    let mut p: usize = 0;
    while p < edits.len() && key_before(&edits[p], &edit)
        invariant
            p <= edits@.len(),
            edits@ == original,
            ordered(original),
            forall|k: int| 0 <= k < p ==> key_less(#[trigger] original[k], edit),
        decreases edits@.len() - p,
    {
        p = p + 1;
    }
    proof {
        lemma_key_less_total(edit, edit);
        if p < original.len() {
            lemma_key_less_total(original[p as int], edit);
        }
    }
    let exact = p < edits.len() && edits[p].relative == edit.relative && edits[p].start == edit.start
        && edits[p].end == edit.end;
    if exact {
        if !(same_bytes(edits[p].before.as_slice(), edit.before.as_slice()) && same_bytes(
            edits[p].after.as_slice(),
            edit.after.as_slice(),
        )) {
            let mut message = String::from_str("conflicting target-specific suggestions in ");
            message.append(edit.relative.as_str());
            return Err(message);
        }
        let ghost value = edit;
        edits.set(p, edit);
        proof {
            assert forall|i: int, j: int| 0 <= i < j < edits@.len() implies key_less(
                #[trigger] edits@[i],
                #[trigger] edits@[j],
            ) by {
                if i == p {
                    assert(key_less(original[i], original[j]));
                } else if j == p {
                    assert(key_less(original[i], original[j]));
                }
            }
            assert(same_edit(edits@[p as int], value));
        }
        Ok(())
    } else {
        let ghost value = edit;
        edits.insert(p, edit);
        proof {
            if p < original.len() {
                assert(key_less(value, original[p as int]));
            }
            assert forall|i: int, j: int| 0 <= i < j < edits@.len() implies key_less(
                #[trigger] edits@[i],
                #[trigger] edits@[j],
            ) by {
                if j == p {
                    assert(edits@[i] == original[i]);
                } else if i == p {
                    assert(edits@[j] == original[j - 1]);
                    if j - 1 > p {
                        assert(key_less(original[p as int], original[j - 1]));
                        lemma_key_less_trans(value, original[p as int], original[j - 1]);
                    }
                } else if j < p {
                    assert(edits@[i] == original[i] && edits@[j] == original[j]);
                } else if i < p {
                    assert(edits@[i] == original[i] && edits@[j] == original[j - 1]);
                    if j - 1 > p {
                        assert(key_less(original[p as int], original[j - 1]));
                        lemma_key_less_trans(value, original[p as int], original[j - 1]);
                    }
                    lemma_key_less_trans(original[i], value, original[j - 1]);
                } else {
                    assert(edits@[i] == original[i - 1] && edits@[j] == original[j - 1]);
                }
            }
            assert(same_edit(edits@[p as int], value));
        }
        Ok(())
    }
}

/// Applying whitespace-only edits keeps every byte that is not whitespace: the
/// visible content of the result is that of the file before.
pub proof fn lemma_whitespace_edits_keep_code(text: Seq<u8>, edits: Seq<FileEdit>, k: int)
    requires
        0 <= k,
        forall|i: int| 0 <= i < edits.len() ==> whitespace_suggestion(#[trigger] edits[i].before@, edits[i].after@),
        apply_from(text, edits, k) is Some,
    ensures
        crate::slices::visible(apply_from(text, edits, k)->0) == crate::slices::visible(text),
    decreases edits.len() - k,
{
    if k < edits.len() {
        let e = edits[k];
        let (s, t) = (e.start as int, e.end as int);
        let next = replace_range(text, s, t, e.after@);
        assert(whitespace_suggestion(edits[k].before@, edits[k].after@));
        lemma_whitespace_edits_keep_code(next, edits, k + 1);
        let head = text.subrange(0, s);
        let tail = text.subrange(t, text.len() as int);
        crate::slices::lemma_visible_concat(head + e.after@, tail);
        crate::slices::lemma_visible_concat(head, e.after@);
        crate::slices::lemma_visible_trivia(e.after@);
        crate::slices::lemma_visible_trivia(e.before@);
        assert(text =~= head + e.before@ + tail);
        crate::slices::lemma_visible_concat(head + e.before@, tail);
        crate::slices::lemma_visible_concat(head, e.before@);
        assert(crate::slices::visible(head) + Seq::<u8>::empty() =~= crate::slices::visible(head));
    }
}

/// Applying one file's accepted edits keeps its code, comments and literals:
/// when every edit replaces whitespace with whitespace and the edits apply,
/// the result has the same visible content as the file.
pub proof fn lemma_file_edits_keep_code(data: Seq<u8>, edits: Seq<FileEdit>)
    requires
        forall|i: int| 0 <= i < edits.len() ==> whitespace_suggestion(#[trigger] edits[i].before@, edits[i].after@),
        apply_from(data, descending_by_start(edits), 0) is Some,
    ensures
        crate::slices::visible(apply_from(data, descending_by_start(edits), 0)->0) == crate::slices::visible(data),
{
    lemma_descending_keeps_edits(edits);
    lemma_whitespace_edits_keep_code(data, descending_by_start(edits), 0);
}

/// Sorting by start only reorders edits: every sorted edit is one of them.
proof fn lemma_descending_keeps_edits(edits: Seq<FileEdit>)
    ensures
        forall|i: int|
            0 <= i < descending_by_start(edits).len() ==> edits.contains(#[trigger] descending_by_start(edits)[i]),
    decreases edits.len(),
{
    if edits.len() > 0 {
        lemma_descending_keeps_edits(edits.drop_last());
        lemma_insert_keeps_edits(descending_by_start(edits.drop_last()), edits.last());
        assert forall|i: int| 0 <= i < descending_by_start(edits).len() implies edits.contains(
            #[trigger] descending_by_start(edits)[i],
        ) by {
            let x = descending_by_start(edits)[i];
            if x == edits.last() {
                assert(edits[edits.len() - 1] == x);
            } else {
                let j = choose|j: int| 0 <= j < descending_by_start(edits.drop_last()).len()
                    && descending_by_start(edits.drop_last())[j] == x;
                assert(edits.drop_last().contains(x));
                let m = choose|m: int| 0 <= m < edits.drop_last().len() && edits.drop_last()[m] == x;
                assert(edits[m] == x);
            }
        }
    }
}

/// Inserting an edit keeps the others and adds only it.
proof fn lemma_insert_keeps_edits(sorted: Seq<FileEdit>, edit: FileEdit)
    ensures
        forall|i: int|
            0 <= i < insert_descending(sorted, edit).len() ==> (#[trigger] insert_descending(sorted, edit)[i]
                == edit || sorted.contains(insert_descending(sorted, edit)[i])),
    decreases sorted.len(),
{
    if sorted.len() > 0 && sorted.last().start < edit.start {
        lemma_insert_keeps_edits(sorted.drop_last(), edit);
        assert forall|i: int| 0 <= i < insert_descending(sorted, edit).len() implies (#[trigger] insert_descending(
            sorted,
            edit,
        )[i] == edit || sorted.contains(insert_descending(sorted, edit)[i])) by {
            let rest = insert_descending(sorted.drop_last(), edit);
            if i < rest.len() {
                let x = rest[i];
                if x != edit {
                    let m = choose|m: int| 0 <= m < sorted.drop_last().len() && sorted.drop_last()[m] == x;
                    assert(sorted[m] == x);
                }
            } else {
                assert(sorted[sorted.len() - 1] == sorted.last());
            }
        }
    } else if sorted.len() > 0 {
        assert forall|i: int| 0 <= i < insert_descending(sorted, edit).len() implies (#[trigger] insert_descending(
            sorted,
            edit,
        )[i] == edit || sorted.contains(insert_descending(sorted, edit)[i])) by {
            if i < sorted.len() {
                assert(sorted[i] == insert_descending(sorted, edit)[i]);
            }
        }
    }
}

/// The edits of the item-spacing lint among `edits`, in order.
pub open spec fn item_spacing_edits(edits: Seq<FileEdit>) -> Seq<FileEdit>
    decreases edits.len(),
{
    if edits.len() == 0 {
        Seq::empty()
    } else {
        let earlier = item_spacing_edits(edits.drop_last());
        if edits.last().rule@ == "statement_spacing_item_spacing"@ {
            earlier.push(edits.last())
        } else {
            earlier
        }
    }
}

/// The edits of the item-spacing lint, which a run applies before formatting
/// so that declaration groups exist before imports are sorted within them.
pub fn declaration_edits(edits: &Vec<FileEdit>) -> (kept: Vec<FileEdit>)
    ensures
        same_edits(kept@, item_spacing_edits(edits@)),
{
    let mut kept: Vec<FileEdit> = Vec::new();
    let mut i: usize = 0;
    while i < edits.len()
        invariant
            i <= edits@.len(),
            same_edits(kept@, item_spacing_edits(edits@.take(i as int))),
        decreases edits@.len() - i,
    {
        proof {
            assert(edits@.take(i + 1).drop_last() =~= edits@.take(i as int));
            assert(edits@.take(i + 1).last() == edits@[i as int]);
        }
        let ghost before = kept@;
        if same_text(edits[i].rule.as_str(), "statement_spacing_item_spacing") {
            kept.push(copy_edit(&edits[i]));
            proof {
                let spec_kept = item_spacing_edits(edits@.take(i + 1));
                assert(spec_kept == item_spacing_edits(edits@.take(i as int)).push(edits@[i as int]));
                assert forall|k: int| 0 <= k < kept@.len() implies same_edit(#[trigger] kept@[k], spec_kept[k]) by {
                    if k < before.len() {
                        assert(kept@[k] == before[k]);
                    }
                }
            }
        }
        i = i + 1;
    }
    proof {
        assert(edits@.take(i as int) =~= edits@);
    }
    kept
}


} // verus!
