//! One owner per boundary, with mandatory joins established before group splitting.
use vstd::prelude::*;
use vstd::utf8::*;

use crate::config::{effective_rules, validation_error, Config, GuardChain};
use crate::edits::{
    blank_line_replacement, bytes_of, edits_fault, line_feeds, newline_bounds, validate_edits, Edit,
};
use crate::model::{rule_index, ByteRange, Gap, Rule, RuleMask, SourceModel, Unit, UnitKind, UnitList};
use crate::slices::{all_trivia, char_range};

pub mod decisions;
pub mod groups;
pub mod local;
pub mod setup;

use decisions::{blocked, spec_blocked, spec_enabled, strengthens, Decision};

verus! {

/// One spacing diagnostic, optionally accompanied by a safe whitespace edit.
#[derive(Debug)]
pub struct Finding {
    /// Check responsible for this diagnostic.
    pub rule: Rule,
    /// Compiler-node identity at which the diagnostic should be emitted.
    pub anchor: usize,
    /// Original normalized-source span of the affected boundary.
    pub range: ByteRange,
    /// Explanation of the required spacing change.
    pub message: String,
    /// Applicable whitespace edit, absent for layouts that cannot be fixed safely.
    pub edit: Option<Edit>,
}

impl Clone for Finding {
    fn clone(&self) -> (copy: Self)
        ensures
            copy == *self,
    {
        let edit = match &self.edit {
            Some(edit) => Some(edit.clone()),
            None => None,
        };
        Finding {
            rule: self.rule,
            anchor: self.anchor,
            range: self.range,
            message: self.message.clone(),
            edit,
        }
    }
}

/// Validated set of spacing diagnostics for one source model.
#[derive(Debug)]
pub struct Plan {
    /// Diagnostics sorted by source span and rule.
    pub findings: Vec<Finding>,
    /// Number of boundaries protected by syntax or inactive code.
    pub skipped_boundaries: usize,
}

impl Default for Plan {
    fn default() -> (plan: Self)
        ensures
            plan.findings@.len() == 0,
            plan.skipped_boundaries == 0,
    {
        Plan { findings: Vec::new(), skipped_boundaries: 0 }
    }
}

/// The edits of the findings that carry one, in finding order.
pub open spec fn finding_edits(findings: Seq<Finding>) -> Seq<Edit>
    decreases findings.len(),
{
    if findings.len() == 0 {
        Seq::empty()
    } else {
        match findings.last().edit {
            Some(edit) => finding_edits(findings.drop_last()).push(edit),
            None => finding_edits(findings.drop_last()),
        }
    }
}

impl Plan {
    /// Collects the applicable edits in diagnostic order.
    pub fn edits(&self) -> (edits: Vec<Edit>)
        ensures
            edits@ == finding_edits(self.findings@),
    {
        let mut edits: Vec<Edit> = Vec::new();
        let mut i: usize = 0;
        while i < self.findings.len()
            invariant
                i <= self.findings@.len(),
                edits@ == finding_edits(self.findings@.subrange(0, i as int)),
            decreases self.findings@.len() - i,
        {
            proof {
                assert(self.findings@.subrange(0, i as int + 1).drop_last() =~= self.findings@.subrange(
                    0,
                    i as int,
                ));
            }
            if let Some(edit) = &self.findings[i].edit {
                edits.push(edit.clone());
            }
            i = i + 1;
        }
        proof {
            assert(self.findings@.subrange(0, i as int) =~= self.findings@);
        }
        edits
    }
}

/// Diagnostic order: by span start, span end, then rule.
pub open spec fn finding_before_or_at(a: Finding, b: Finding) -> bool {
    a.range.start < b.range.start || (a.range.start == b.range.start && (a.range.end
        < b.range.end || (a.range.end == b.range.end && rule_index(a.rule) <= rule_index(
        b.rule,
    ))))
}

/// Whether findings are in diagnostic order.
pub open spec fn findings_sorted(findings: Seq<Finding>) -> bool {
    forall|a: int, b: int|
        0 <= a < b < findings.len() ==> finding_before_or_at(
            #[trigger] findings[a],
            #[trigger] findings[b],
        )
}

/// Whether every edit belongs to the rule and span of its finding.
pub open spec fn edits_match_findings(findings: Seq<Finding>) -> bool {
    forall|k: int|
        0 <= k < findings.len() && (#[trigger] findings[k]).edit is Some ==> (
        findings[k].edit->Some_0.rule == findings[k].rule && findings[k].edit->Some_0.range
            == findings[k].range)
}

/// The number of blocked boundaries of a list, below `end`.
pub open spec fn blocked_count(list: UnitList, end: int) -> nat
    decreases end,
{
    if end <= 0 {
        0
    } else {
        blocked_count(list, end - 1) + if spec_blocked(list, end - 1) {
            1nat
        } else {
            0nat
        }
    }
}

/// The number of boundaries of all lists.
pub open spec fn total_gaps(lists: Seq<UnitList>) -> nat
    decreases lists.len(),
{
    if lists.len() == 0 {
        0
    } else {
        total_gaps(lists.drop_last()) + lists.last().gaps@.len()
    }
}

/// The number of blocked boundaries of all lists.
pub open spec fn total_blocked(lists: Seq<UnitList>) -> nat
    decreases lists.len(),
{
    if lists.len() == 0 {
        0
    } else {
        total_blocked(lists.drop_last()) + blocked_count(lists.last(), lists.last().gaps@.len() as int)
    }
}

/// Whether the gap list has one boundary between each pair of adjacent units.
pub open spec fn consistent(list: UnitList) -> bool {
    list.gaps@.len() == if list.units@.len() == 0 {
        0
    } else {
        list.units@.len() - 1
    }
}

/// An edit as plain values: its span, the bytes it expects and writes, and its rule.
pub struct EditView {
    /// Span in the original source.
    pub range: ByteRange,
    /// Bytes required at the span.
    pub expected: Seq<u8>,
    /// Bytes written in their place.
    pub replacement: Seq<u8>,
    /// Rule responsible for the edit.
    pub rule: Rule,
}

/// A finding as plain values.
pub struct FindingView {
    /// Rule responsible for the finding.
    pub rule: Rule,
    /// Compiler node at which it is reported.
    pub anchor: usize,
    /// Span of the affected boundary.
    pub range: ByteRange,
    /// Explanation shown with it.
    pub message: Seq<char>,
    /// Its edit, when one applies.
    pub edit: Option<EditView>,
}

impl View for Finding {
    type V = FindingView;

    open spec fn view(&self) -> FindingView {
        FindingView {
            rule: self.rule,
            anchor: self.anchor,
            range: self.range,
            message: self.message@,
            edit: match self.edit {
                Some(edit) => Some(
                    EditView {
                        range: edit.range,
                        expected: encode_utf8(edit.expected@),
                        replacement: encode_utf8(edit.replacement@),
                        rule: edit.rule,
                    },
                ),
                None => None,
            },
        }
    }
}

/// The plain values of a list of findings.
pub open spec fn finding_views(findings: Seq<Finding>) -> Seq<FindingView> {
    findings.map_values(|f: Finding| f@)
}

/// The first and last line feed of a gap that holds one.
pub open spec fn outer_newlines(gap: Seq<u8>) -> (int, int) {
    choose|first: int, last: int| newline_bounds(gap, first, last)
}

/// A gap with the lines between its first and last line feed replaced by `blanks`
/// blank lines.
pub open spec fn replaced_gap(gap: Seq<u8>, blanks: nat) -> Seq<u8> {
    let (first, last) = outer_newlines(gap);
    gap.subrange(0, first + 1) + line_feeds(blanks) + gap.subrange(last + 1, gap.len() as int)
}

/// A gap has one first and one last line feed.
proof fn lemma_newline_bounds_unique(gap: Seq<u8>, f1: int, l1: int, f2: int, l2: int)
    requires
        newline_bounds(gap, f1, l1),
        newline_bounds(gap, f2, l2),
    ensures
        f1 == f2 && l1 == l2,
{
    if f1 < f2 {
        assert(gap[f1] != 10);
    }
    if f2 < f1 {
        assert(gap[f2] != 10);
    }
    if l1 < l2 {
        assert(gap[l2] != 10);
    }
    if l2 < l1 {
        assert(gap[l1] != 10);
    }
}

/// What the blank-line replacement writes is the gap replaced around its outer line feeds.
proof fn lemma_replaced_gap(gap: Seq<u8>, blanks: nat, text: Seq<u8>)
    requires
        exists|first: int, last: int|
            newline_bounds(gap, first, last) && text == gap.subrange(0, first + 1) + line_feeds(blanks)
                + gap.subrange(last + 1, gap.len() as int),
    ensures
        text == replaced_gap(gap, blanks),
{
    let (first, last) = choose|first: int, last: int|
        newline_bounds(gap, first, last) && text == gap.subrange(0, first + 1) + line_feeds(blanks)
            + gap.subrange(last + 1, gap.len() as int);
    let (f, l) = outer_newlines(gap);
    lemma_newline_bounds_unique(gap, first, last, f, l);
}

/// Replacing the blank lines of a gap is idempotent: once a gap with a line feed
/// holds `blanks` blank lines, replacing them by `blanks` blank lines again
/// changes nothing.
pub proof fn lemma_replaced_gap_idempotent(gap: Seq<u8>, blanks: nat)
    requires
        exists|first: int, last: int| newline_bounds(gap, first, last),
    ensures
        replaced_gap(replaced_gap(gap, blanks), blanks) == replaced_gap(gap, blanks),
{
    let (f, l) = outer_newlines(gap);
    let r = replaced_gap(gap, blanks);
    let n = blanks as int;
    assert(r =~= gap.subrange(0, f + 1) + line_feeds(blanks) + gap.subrange(l + 1, gap.len() as int));
    assert(r.len() == f + 1 + n + (gap.len() - l - 1));
    assert forall|k: int| 0 <= k < f implies #[trigger] r[k] != 10 by {
        assert(r[k] == gap[k]);
    }
    assert forall|k: int| f + n < k < r.len() implies #[trigger] r[k] != 10 by {
        assert(r[k] == gap[k - f - 1 - n + l + 1]);
    }
    assert(r[f] == 10);
    assert(r[f + n] == 10);
    assert(newline_bounds(r, f, f + n));
    let (f2, l2) = outer_newlines(r);
    lemma_newline_bounds_unique(r, f, f + n, f2, l2);
    assert(replaced_gap(r, blanks) =~= r.subrange(0, f + 1) + line_feeds(blanks) + r.subrange(
        f + n + 1,
        r.len() as int,
    ));
    assert(r.subrange(0, f + 1) =~= gap.subrange(0, f + 1));
    assert(r.subrange(f + n + 1, r.len() as int) =~= gap.subrange(l + 1, gap.len() as int));
}

/// The number of line feeds in a byte sequence.
pub open spec fn line_feed_count(bytes: Seq<u8>) -> nat
    decreases bytes.len(),
{
    if bytes.len() == 0 {
        0
    } else {
        line_feed_count(bytes.drop_last()) + if bytes.last() == 10 {
            1nat
        } else {
            0nat
        }
    }
}

/// The finding at gap `i` of a list under its decisions: there is one where a
/// decision asks for a blank-line count that the gap does not have. It carries an
/// edit when the gap is vertical whitespace around a line feed.
pub open spec fn gap_finding(bytes: Seq<u8>, list: UnitList, decisions: Seq<Option<Decision>>, i: int) -> Option<
    FindingView,
> {
    if decisions[i] is Some && list.gaps@[i].blank_lines != decisions[i]->Some_0.blanks {
        let d = decisions[i]->Some_0;
        let gap = list.gaps@[i];
        let old = bytes.subrange(gap.range.start as int, gap.range.end as int);
        Some(
            FindingView {
                rule: d.rule,
                anchor: match d.anchor {
                    Some(anchor) => anchor,
                    None => if i + 1 < list.units@.len() {
                        list.units@[i + 1].anchor
                    } else {
                        0
                    },
                },
                range: gap.range,
                message: d.message@,
                edit: if gap.vertical && all_trivia(old) && old.contains(10u8) {
                    Some(
                        EditView {
                            range: gap.range,
                            expected: old,
                            replacement: replaced_gap(old, d.blanks as nat),
                            rule: d.rule,
                        },
                    )
                } else {
                    None
                },
            },
        )
    } else {
        None
    }
}

/// The findings at the first `n` gaps of a list, in gap order.
pub open spec fn gap_findings(bytes: Seq<u8>, list: UnitList, decisions: Seq<Option<Decision>>, n: int) -> Seq<
    FindingView,
>
    decreases n,
{
    if n <= 0 {
        Seq::empty()
    } else {
        let earlier = gap_findings(bytes, list, decisions, n - 1);
        match gap_finding(bytes, list, decisions, n - 1) {
            Some(finding) => earlier.push(finding),
            None => earlier,
        }
    }
}

/// The findings of a sequence of lists under their planned decisions, list by list.
pub open spec fn lists_findings(config: Config, global_rules: RuleMask, bytes: Seq<u8>, lists: Seq<UnitList>) -> Seq<
    FindingView,
>
    decreases lists.len(),
{
    if lists.len() == 0 {
        Seq::empty()
    } else {
        let list = lists.last();
        lists_findings(config, global_rules, bytes, lists.drop_last()) + gap_findings(
            bytes,
            list,
            planned_decisions(config, global_rules, bytes, list),
            list.gaps@.len() as int,
        )
    }
}

/// The finding at a block edge: there is one where the edge spans more than one
/// line feed of whitespace, and its edit removes the blank lines.
pub open spec fn edge_finding(bytes: Seq<u8>, edge: (ByteRange, usize)) -> Option<FindingView> {
    let (range, anchor) = edge;
    let old = bytes.subrange(range.start as int, range.end as int);
    if line_feed_count(old) > 1 && all_trivia(old) {
        Some(
            FindingView {
                rule: Rule::Layout,
                anchor,
                range,
                message: "remove empty padding at this block edge"@,
                edit: Some(
                    EditView { range, expected: old, replacement: replaced_gap(old, 0), rule: Rule::Layout },
                ),
            },
        )
    } else {
        None
    }
}

/// The findings at a sequence of block edges, in order.
pub open spec fn edge_findings(bytes: Seq<u8>, edges: Seq<(ByteRange, usize)>) -> Seq<FindingView>
    decreases edges.len(),
{
    if edges.len() == 0 {
        Seq::empty()
    } else {
        let earlier = edge_findings(bytes, edges.drop_last());
        match edge_finding(bytes, edges.last()) {
            Some(finding) => earlier.push(finding),
            None => earlier,
        }
    }
}

/// The findings of a source model: those of its lists, then, when the layout rule
/// is enabled, those of its block edges.
pub open spec fn expected_findings(config: Config, global_rules: RuleMask, bytes: Seq<u8>, model: SourceModel) -> Seq<
    FindingView,
> {
    lists_findings(config, global_rules, bytes, model.lists@) + if global_rules@.contains(Rule::Layout) {
        edge_findings(bytes, model.layout_edges@)
    } else {
        Seq::empty()
    }
}

/// Whether two adjacent guards may stay compact.
pub fn guard_pair(config: &Config, a: &Unit, b: &Unit) -> (pair: bool)
    ensures
        pair == (config.control_flow.guard_chain == GuardChain::Allow && a.is_guard && b.is_guard),
{
    config.control_flow.guard_chain == GuardChain::Allow && a.is_guard && b.is_guard
}

/// The decisions of a list in the source `bytes`: mandatory joins and
/// group-independent rules, then the optional joins of related units, then setup
/// splitting, then the cap on blank lines, starting from no decision at any gap.
pub open spec fn planned_decisions(config: Config, global_rules: RuleMask, bytes: Seq<u8>, list: UnitList) -> Seq<
    Option<Decision>,
> {
    let cohesive = groups::cohesive_marks(config, list);
    let undecided = Seq::new(list.gaps@.len(), |_i: int| None::<Decision>);
    let phases = local::local_decisions(config, global_rules, list, cohesive, undecided);
    let joined = local::normalized_decisions(config, bytes, global_rules, list, phases);
    let split = setup::rounds_from(config, global_rules, list, cohesive, joined, 0);
    local::offer_pass(
        global_rules,
        list,
        split,
        |j: int| local::layout_offers(list, j),
        list.gaps@.len() as int,
    )
}

/// Planning never decides a boundary that must keep its spacing (one that is
/// protected, inactive, or beside a protected or inactive unit), and every decision
/// it makes belongs to a rule that is enabled both globally and at the unit after
/// the boundary.
pub proof fn lemma_plan_respects_protection(
    config: Config,
    global_rules: RuleMask,
    bytes: Seq<u8>,
    list: UnitList,
    i: int,
)
    requires
        0 <= i < list.gaps@.len(),
        planned_decisions(config, global_rules, bytes, list)[i] is Some,
    ensures
        !spec_blocked(list, i),
        spec_enabled(
            global_rules,
            list.units@[i + 1],
            planned_decisions(config, global_rules, bytes, list)[i]->Some_0.rule,
        ),
{
    let cohesive = groups::cohesive_marks(config, list);
    let undecided = Seq::new(list.gaps@.len(), |_i: int| None::<Decision>);
    let phases = local::local_decisions(config, global_rules, list, cohesive, undecided);
    let joined = local::normalized_decisions(config, bytes, global_rules, list, phases);
    let split = setup::rounds_from(config, global_rules, list, cohesive, joined, 0);
    let capped = local::offer_pass(
        global_rules,
        list,
        split,
        |j: int| local::layout_offers(list, j),
        list.gaps@.len() as int,
    );
    local::lemma_local_decisions_strengthen(config, global_rules, list, cohesive, undecided);
    local::lemma_normalized_strengthen(config, bytes, global_rules, list, phases);
    setup::lemma_rounds_strengthen(config, global_rules, list, cohesive, joined, 0);
    local::lemma_offer_pass_strengthens(
        global_rules,
        list,
        split,
        |j: int| local::layout_offers(list, j),
        list.gaps@.len() as int,
    );
    decisions::lemma_strengthens_trans(global_rules, list, undecided, phases, joined);
    decisions::lemma_strengthens_trans(global_rules, list, undecided, joined, split);
    decisions::lemma_strengthens_trans(global_rules, list, undecided, split, capped);
    assert(capped[i] != undecided[i]);
}

/// An immediate `Result`/`Option` check that the configuration joins to the `let`
/// producing what it checks stays joined: where the result-check rule offers the
/// mandatory join, the planned decision is that join, whatever the later rules
/// would offer.
pub proof fn lemma_result_check_kept(config: Config, global_rules: RuleMask, bytes: Seq<u8>, list: UnitList, i: int)
    requires
        0 <= i < list.gaps@.len(),
        local::result_check_offers(config, global_rules, list, i).len() > 0,
    ensures
        planned_decisions(config, global_rules, bytes, list)[i] == Some(
            local::result_check_offers(config, global_rules, list, i)[0],
        ),
{
    let n = list.gaps@.len() as int;
    let cohesive = groups::cohesive_marks(config, list);
    let undecided = Seq::new(list.gaps@.len(), |_i: int| None::<Decision>);
    let checks = |j: int| local::result_check_offers(config, global_rules, list, j);
    let phases = |j: int| local::phase_offers(config, list, cohesive, j);
    let layouts = |j: int| local::layout_offers(list, j);
    let join = checks(i)[0];
    assert(local::offers_at_most(checks, 100));
    assert forall|j: int, k: int| 0 <= k < phases(j).len() implies #[trigger] phases(j)[k].priority <= 100 by {
        let a = local::exit_offers(config, list, cohesive, j);
        let b = local::after_block_offers(config, list, cohesive, j);
        let c = local::phase_split_offers(config, list, cohesive, j);
        if !(j + 1 >= list.units@.len() || spec_blocked(list, j)) && !(list.units@[j].kind.spec_is_item()
            || list.units@[j + 1].kind.spec_is_item()) {
            assert(phases(j) == a + b + c);
            if k < a.len() {
                assert(phases(j)[k] == a[k]);
            } else if k < a.len() + b.len() {
                assert(phases(j)[k] == b[k - a.len()]);
            } else {
                assert(phases(j)[k] == c[k - a.len() - b.len()]);
            }
        }
    }
    assert(local::offers_at_most(layouts, 100));
    // The result-check pass reaches slot `i` untouched and places the join there.
    let before = local::offer_pass(global_rules, list, undecided, checks, i);
    local::lemma_offer_pass_keeps(global_rules, list, undecided, checks, i, i, 100);
    local::lemma_offer_pass_strengthens(global_rules, list, undecided, checks, i);
    assert(checks(i) == seq![join]);
    assert(seq![join].drop_last() =~= Seq::<Decision>::empty());
    assert(before[i] is None);
    assert(local::offer_pass(global_rules, list, undecided, checks, i + 1) == local::put_all(
        global_rules,
        list,
        before,
        i,
        checks(i),
    ));
    assert(local::put_all(global_rules, list, before, i, Seq::<Decision>::empty()) == before);
    assert(local::put_all(global_rules, list, before, i, seq![join]) == decisions::spec_put(
        global_rules,
        list,
        before,
        i,
        join,
    ));
    assert(decisions::spec_accepts(global_rules, list, before, i, join));
    assert(local::offer_pass(global_rules, list, undecided, checks, i + 1)[i] == Some(join));
    local::lemma_offer_pass_keeps_from(global_rules, list, undecided, checks, i + 1, n, i, 100);
    let first = local::offer_pass(global_rules, list, undecided, checks, n);
    local::lemma_offer_pass_strengthens(global_rules, list, undecided, checks, n);
    // The later passes offer no higher priority.
    local::lemma_offer_pass_keeps(global_rules, list, first, phases, n, i, 100);
    let phased = local::offer_pass(global_rules, list, first, phases, n);
    local::lemma_offer_pass_strengthens(global_rules, list, first, phases, n);
    assert(phased == local::local_decisions(config, global_rules, list, cohesive, undecided));
    // The optional joins offer less.
    let joined = local::normalized_decisions(config, bytes, global_rules, list, phased);
    local::lemma_normalized_strengthen(config, bytes, global_rules, list, phased);
    if config.grouping.join_related {
        let joins = |j: int| local::normalize_offers(config, bytes, list, j);
        assert(local::offers_at_most(joins, 100));
        local::lemma_offer_pass_keeps(global_rules, list, phased, joins, n, i, 100);
    }
    assert(joined[i] == phased[i]);
    setup::lemma_rounds_keep(config, global_rules, list, cohesive, joined, 0, i);
    let split = setup::rounds_from(config, global_rules, list, cohesive, joined, 0);
    setup::lemma_rounds_strengthen(config, global_rules, list, cohesive, joined, 0);
    local::lemma_offer_pass_keeps(global_rules, list, split, layouts, n, i, 100);
}

/// Where the configuration asks for related units to be joined, the boundary
/// between two units that belong together (an editable, joinable gap between
/// related units, which normalization offers to join), with the rule of their
/// join enabled, ends without a blank line, unless a decision of a stronger rule
/// owns it.
pub proof fn lemma_related_units_joined(config: Config, global_rules: RuleMask, bytes: Seq<u8>, list: UnitList, i: int)
    requires
        config.grouping.join_related,
        0 <= i < list.gaps@.len(),
        local::normalize_offers(config, bytes, list, i).len() > 0,
        local::normalize_offers(config, bytes, list, i)[0].blanks == 0,
        spec_enabled(global_rules, list.units@[i + 1], local::normalize_offers(config, bytes, list, i)[0].rule),
    ensures
        planned_decisions(config, global_rules, bytes, list)[i] is Some,
        planned_decisions(config, global_rules, bytes, list)[i]->Some_0.blanks == 0
            || planned_decisions(config, global_rules, bytes, list)[i]->Some_0.priority > 20,
{
    let n = list.gaps@.len() as int;
    let cohesive = groups::cohesive_marks(config, list);
    let undecided = Seq::new(list.gaps@.len(), |_i: int| None::<Decision>);
    let phased = local::local_decisions(config, global_rules, list, cohesive, undecided);
    let joins = |j: int| local::normalize_offers(config, bytes, list, j);
    let layouts = |j: int| local::layout_offers(list, j);
    local::lemma_local_decisions_strengthen(config, global_rules, list, cohesive, undecided);
    local::lemma_local_decisions_at_least(config, global_rules, list, cohesive);
    assert(local::offers_at_most(joins, 255));
    // The pass reaches slot `i` untouched.
    let before = local::offer_pass(global_rules, list, phased, joins, i);
    local::lemma_offer_pass_keeps(global_rules, list, phased, joins, i, i, 255);
    local::lemma_offer_pass_strengthens(global_rules, list, phased, joins, i);
    let join = joins(i)[0];
    assert(joins(i) == seq![join]);
    assert(join.priority == 20);
    assert(seq![join].drop_last() =~= Seq::<Decision>::empty());
    assert(local::put_all(global_rules, list, before, i, Seq::<Decision>::empty()) == before);
    let after = local::offer_pass(global_rules, list, phased, joins, i + 1);
    assert(after == decisions::spec_put(global_rules, list, before, i, join));
    assert(after[i] is Some && after[i]->Some_0.priority >= 20 && (after[i]->Some_0.blanks == 0
        || after[i]->Some_0.priority > 20));
    if i + 1 < n {
        local::lemma_offer_pass_elsewhere(global_rules, list, phased, joins, i + 1, n, i);
    }
    let joined = local::normalized_decisions(config, bytes, global_rules, list, phased);
    assert(joined[i] == after[i]);
    // The later passes only strengthen it.
    local::lemma_normalized_strengthen(config, bytes, global_rules, list, phased);
    setup::lemma_rounds_strengthen(config, global_rules, list, cohesive, joined, 0);
    let split = setup::rounds_from(config, global_rules, list, cohesive, joined, 0);
    local::lemma_offer_pass_strengthens(global_rules, list, split, layouts, n);
    let capped = local::offer_pass(global_rules, list, split, layouts, n);
    decisions::lemma_strengthens_trans(global_rules, list, joined, split, capped);
    assert(capped == planned_decisions(config, global_rules, bytes, list));
    assert(capped[i] == joined[i] || capped[i] != joined[i]);
}

/// An unsafe block followed by a binding is a continuation: under a policy that
/// is not strict and lets related units continue after a block (the default
/// one among them), planning never separates the binding from the unsafe block
/// as the start of a new group after a standalone block.
pub proof fn lemma_unsafe_block_then_binding_not_separated(
    config: Config,
    global_rules: RuleMask,
    bytes: Seq<u8>,
    list: UnitList,
    i: int,
)
    requires
        0 <= i < list.gaps@.len(),
        i + 1 < list.units@.len(),
        list.units@[i].kind == UnitKind::UnsafeBlock,
        list.units@[i + 1].kind == UnitKind::Let || list.units@[i + 1].kind == UnitKind::Assignment,
        config.grouping.expressions != crate::config::Expressions::Strict,
        config.control_flow.related_continuation,
    ensures
        planned_decisions(config, global_rules, bytes, list)[i] is Some ==> planned_decisions(
            config,
            global_rules,
            bytes,
            list,
        )[i]->Some_0.rule != Rule::AfterBlock,
{
    let n = list.gaps@.len() as int;
    let r = Rule::AfterBlock;
    let cohesive = groups::cohesive_marks(config, list);
    let undecided = Seq::new(list.gaps@.len(), |_i: int| None::<Decision>);
    let checks = |j: int| local::result_check_offers(config, global_rules, list, j);
    let phases = |j: int| local::phase_offers(config, list, cohesive, j);
    let joins = |j: int| local::normalize_offers(config, bytes, list, j);
    let layouts = |j: int| local::layout_offers(list, j);
    assert(local::no_rule_at(undecided, i, r));
    local::lemma_offer_pass_rule_not(global_rules, list, undecided, checks, n, i, r);
    let first = local::offer_pass(global_rules, list, undecided, checks, n);
    local::lemma_offer_pass_strengthens(global_rules, list, undecided, checks, n);
    local::lemma_unsafe_block_continues(config, list, cohesive, i);
    local::lemma_offer_pass_rule_not(global_rules, list, first, phases, n, i, r);
    let phased = local::offer_pass(global_rules, list, first, phases, n);
    local::lemma_offer_pass_strengthens(global_rules, list, first, phases, n);
    assert(phased == local::local_decisions(config, global_rules, list, cohesive, undecided));
    let joined = local::normalized_decisions(config, bytes, global_rules, list, phased);
    if config.grouping.join_related {
        local::lemma_offer_pass_rule_not(global_rules, list, phased, joins, n, i, r);
    }
    local::lemma_normalized_strengthen(config, bytes, global_rules, list, phased);
    setup::lemma_rounds_rule_not(config, global_rules, list, cohesive, joined, 0, i, r);
    let split = setup::rounds_from(config, global_rules, list, cohesive, joined, 0);
    setup::lemma_rounds_strengthen(config, global_rules, list, cohesive, joined, 0);
    local::lemma_offer_pass_rule_not(global_rules, list, split, layouts, n, i, r);
}

/// Every boundary that planning decides gets exactly one blank line, except where
/// an immediate `Result`/`Option` check is joined to its producer, and, when the
/// configuration asks for related units to be joined, where an optional join of
/// related units stands: planning never removes a blank line otherwise, and the
/// layout rule only shortens a run of blank lines to one.
pub proof fn lemma_plan_one_blank_line(config: Config, global_rules: RuleMask, bytes: Seq<u8>, list: UnitList, i: int)
    requires
        0 <= i < list.gaps@.len(),
        planned_decisions(config, global_rules, bytes, list)[i] is Some,
    ensures
        planned_decisions(config, global_rules, bytes, list)[i]->Some_0.blanks == 1 || (
        planned_decisions(config, global_rules, bytes, list)[i]->Some_0.blanks == 0 && (
        planned_decisions(config, global_rules, bytes, list)[i]->Some_0.rule == Rule::ResultCheck || (
        config.grouping.join_related && planned_decisions(config, global_rules, bytes, list)[i]->Some_0.priority
            == 20))),
{
    if config.grouping.join_related {
        lemma_plan_one_blank_or_join(config, global_rules, bytes, list, i);
    } else {
        lemma_plan_one_blank_without_joins(config, global_rules, bytes, list, i);
    }
}

/// Without optional joins, every decided boundary asks for one blank line or
/// joins a result check.
proof fn lemma_plan_one_blank_without_joins(
    config: Config,
    global_rules: RuleMask,
    bytes: Seq<u8>,
    list: UnitList,
    i: int,
)
    requires
        !config.grouping.join_related,
        0 <= i < list.gaps@.len(),
        planned_decisions(config, global_rules, bytes, list)[i] is Some,
    ensures
        local::one_blank_or_check(planned_decisions(config, global_rules, bytes, list)[i]->Some_0),
{
    let n = list.gaps@.len() as int;
    let cohesive = groups::cohesive_marks(config, list);
    let undecided = Seq::new(list.gaps@.len(), |_i: int| None::<Decision>);
    let checks = |j: int| local::result_check_offers(config, global_rules, list, j);
    let phases = |j: int| local::phase_offers(config, list, cohesive, j);
    let layouts = |j: int| local::layout_offers(list, j);
    assert(local::slots_one_blank_or_check(undecided));
    assert forall|j: int, k: int| 0 <= k < phases(j).len() implies local::one_blank_or_check(
        #[trigger] phases(j)[k],
    ) by {
        let a = local::exit_offers(config, list, cohesive, j);
        let b = local::after_block_offers(config, list, cohesive, j);
        let c = local::phase_split_offers(config, list, cohesive, j);
        if !(j + 1 >= list.units@.len() || spec_blocked(list, j)) && !(list.units@[j].kind.spec_is_item()
            || list.units@[j + 1].kind.spec_is_item()) {
            assert(phases(j) == a + b + c);
            if k < a.len() {
                assert(phases(j)[k] == a[k]);
            } else if k < a.len() + b.len() {
                assert(phases(j)[k] == b[k - a.len()]);
            } else {
                assert(phases(j)[k] == c[k - a.len() - b.len()]);
            }
        }
    }
    local::lemma_offer_pass_one_blank(global_rules, list, undecided, checks, n);
    let first = local::offer_pass(global_rules, list, undecided, checks, n);
    local::lemma_offer_pass_one_blank(global_rules, list, first, phases, n);
    let phased = local::offer_pass(global_rules, list, first, phases, n);
    assert(phased == local::local_decisions(config, global_rules, list, cohesive, undecided));
    assert(local::normalized_decisions(config, bytes, global_rules, list, phased) == phased);
    setup::lemma_rounds_one_blank(config, global_rules, list, cohesive, phased, 0);
    let split = setup::rounds_from(config, global_rules, list, cohesive, phased, 0);
    local::lemma_offer_pass_one_blank(global_rules, list, split, layouts, n);
    local::lemma_offer_pass_strengthens(global_rules, list, split, layouts, n);
    setup::lemma_rounds_strengthen(config, global_rules, list, cohesive, phased, 0);
    local::lemma_local_decisions_strengthen(config, global_rules, list, cohesive, undecided);
}

/// Every decided boundary asks for one blank line, joins a result check, or
/// holds an optional join.
proof fn lemma_plan_one_blank_or_join(config: Config, global_rules: RuleMask, bytes: Seq<u8>, list: UnitList, i: int)
    requires
        0 <= i < list.gaps@.len(),
        planned_decisions(config, global_rules, bytes, list)[i] is Some,
    ensures
        local::one_blank_or_join(planned_decisions(config, global_rules, bytes, list)[i]->Some_0),
{
    let n = list.gaps@.len() as int;
    let cohesive = groups::cohesive_marks(config, list);
    let undecided = Seq::new(list.gaps@.len(), |_i: int| None::<Decision>);
    let checks = |j: int| local::result_check_offers(config, global_rules, list, j);
    let phases = |j: int| local::phase_offers(config, list, cohesive, j);
    let joins = |j: int| local::normalize_offers(config, bytes, list, j);
    let layouts = |j: int| local::layout_offers(list, j);
    assert(local::slots_one_blank_or_join(undecided));
    assert forall|j: int, k: int| 0 <= k < phases(j).len() implies local::one_blank_or_join(
        #[trigger] phases(j)[k],
    ) by {
        let a = local::exit_offers(config, list, cohesive, j);
        let b = local::after_block_offers(config, list, cohesive, j);
        let c = local::phase_split_offers(config, list, cohesive, j);
        if !(j + 1 >= list.units@.len() || spec_blocked(list, j)) && !(list.units@[j].kind.spec_is_item()
            || list.units@[j + 1].kind.spec_is_item()) {
            assert(phases(j) == a + b + c);
            if k < a.len() {
                assert(phases(j)[k] == a[k]);
            } else if k < a.len() + b.len() {
                assert(phases(j)[k] == b[k - a.len()]);
            } else {
                assert(phases(j)[k] == c[k - a.len() - b.len()]);
            }
        }
    }
    local::lemma_offer_pass_one_blank_or_join(global_rules, list, undecided, checks, n);
    let first = local::offer_pass(global_rules, list, undecided, checks, n);
    local::lemma_offer_pass_one_blank_or_join(global_rules, list, first, phases, n);
    let phased = local::offer_pass(global_rules, list, first, phases, n);
    assert(phased == local::local_decisions(config, global_rules, list, cohesive, undecided));
    let joined = local::normalized_decisions(config, bytes, global_rules, list, phased);
    if config.grouping.join_related {
        local::lemma_offer_pass_one_blank_or_join(global_rules, list, phased, joins, n);
    }
    assert(local::slots_one_blank_or_join(joined));
    setup::lemma_rounds_one_blank_or_join(config, global_rules, list, cohesive, joined, 0);
    let split = setup::rounds_from(config, global_rules, list, cohesive, joined, 0);
    local::lemma_offer_pass_one_blank_or_join(global_rules, list, split, layouts, n);
    local::lemma_offer_pass_strengthens(global_rules, list, split, layouts, n);
    setup::lemma_rounds_strengthen(config, global_rules, list, cohesive, joined, 0);
    local::lemma_normalized_strengthen(config, bytes, global_rules, list, phased);
    local::lemma_local_decisions_strengthen(config, global_rules, list, cohesive, undecided);
}

/// The findings at the gaps of a list all belong to globally enabled rules.
proof fn lemma_gap_findings_enabled(
    config: Config,
    global_rules: RuleMask,
    bytes: Seq<u8>,
    list: UnitList,
    n: int,
)
    requires
        n <= list.gaps@.len(),
    ensures
        forall|k: int|
            0 <= k < gap_findings(bytes, list, planned_decisions(config, global_rules, bytes, list), n).len()
                ==> global_rules@.contains(
                #[trigger] gap_findings(bytes, list, planned_decisions(config, global_rules, bytes, list), n)[k].rule,
            ),
    decreases n,
{
    let decisions = planned_decisions(config, global_rules, bytes, list);
    if n > 0 {
        lemma_gap_findings_enabled(config, global_rules, bytes, list, n - 1);
        if gap_finding(bytes, list, decisions, n - 1) is Some {
            lemma_plan_respects_protection(config, global_rules, bytes, list, n - 1);
        }
    }
}

/// The findings of a sequence of lists all belong to globally enabled rules.
proof fn lemma_lists_findings_enabled(config: Config, global_rules: RuleMask, bytes: Seq<u8>, lists: Seq<UnitList>)
    ensures
        forall|k: int|
            0 <= k < lists_findings(config, global_rules, bytes, lists).len() ==> global_rules@.contains(
                #[trigger] lists_findings(config, global_rules, bytes, lists)[k].rule,
            ),
    decreases lists.len(),
{
    if lists.len() > 0 {
        let list = lists.last();
        let earlier = lists_findings(config, global_rules, bytes, lists.drop_last());
        let here = gap_findings(
            bytes,
            list,
            planned_decisions(config, global_rules, bytes, list),
            list.gaps@.len() as int,
        );
        lemma_lists_findings_enabled(config, global_rules, bytes, lists.drop_last());
        lemma_gap_findings_enabled(config, global_rules, bytes, list, list.gaps@.len() as int);
        assert forall|k: int| 0 <= k < (earlier + here).len() implies global_rules@.contains(
            #[trigger] (earlier + here)[k].rule,
        ) by {
            if k >= earlier.len() {
                assert((earlier + here)[k] == here[k - earlier.len()]);
            }
        }
    }
}

/// The findings at block edges all belong to the layout rule.
proof fn lemma_edge_findings_layout(bytes: Seq<u8>, edges: Seq<(ByteRange, usize)>)
    ensures
        forall|k: int|
            0 <= k < edge_findings(bytes, edges).len() ==> (#[trigger] edge_findings(bytes, edges)[k]).rule
                == Rule::Layout,
    decreases edges.len(),
{
    if edges.len() > 0 {
        lemma_edge_findings_layout(bytes, edges.drop_last());
    }
}

/// Every finding that planning gives belongs to a rule that is enabled: a disabled
/// rule never reports, and the opt-in layout rule reports nothing unless enabled.
pub proof fn lemma_findings_follow_enabled_rules(
    config: Config,
    global_rules: RuleMask,
    bytes: Seq<u8>,
    model: SourceModel,
)
    ensures
        forall|k: int|
            0 <= k < expected_findings(config, global_rules, bytes, model).len() ==> global_rules@.contains(
                #[trigger] expected_findings(config, global_rules, bytes, model)[k].rule,
            ),
{
    let listed = lists_findings(config, global_rules, bytes, model.lists@);
    let edges = if global_rules@.contains(Rule::Layout) {
        edge_findings(bytes, model.layout_edges@)
    } else {
        Seq::empty()
    };
    lemma_lists_findings_enabled(config, global_rules, bytes, model.lists@);
    lemma_edge_findings_layout(bytes, model.layout_edges@);
    assert forall|k: int| 0 <= k < (listed + edges).len() implies global_rules@.contains(
        #[trigger] (listed + edges)[k].rule,
    ) by {
        if k >= listed.len() {
            assert((listed + edges)[k] == edges[k - listed.len()]);
        }
    }
}

/// A list none of whose units is mapped to compiler code gets no decision.
proof fn lemma_inactive_list_undecided(config: Config, global_rules: RuleMask, bytes: Seq<u8>, list: UnitList, i: int)
    requires
        0 <= i < list.gaps@.len(),
        forall|u: int| 0 <= u < list.units@.len() ==> !(#[trigger] list.units@[u]).active,
    ensures
        planned_decisions(config, global_rules, bytes, list)[i] is None,
{
    if planned_decisions(config, global_rules, bytes, list)[i] is Some {
        lemma_plan_respects_protection(config, global_rules, bytes, list, i);
        assert(!list.units@[i].active);
    }
}

/// The findings at the gaps of a list none of whose units is active are none.
proof fn lemma_inactive_gap_findings(config: Config, global_rules: RuleMask, bytes: Seq<u8>, list: UnitList, n: int)
    requires
        n <= list.gaps@.len(),
        forall|u: int| 0 <= u < list.units@.len() ==> !(#[trigger] list.units@[u]).active,
    ensures
        gap_findings(bytes, list, planned_decisions(config, global_rules, bytes, list), n).len() == 0,
    decreases n,
{
    if n > 0 {
        lemma_inactive_gap_findings(config, global_rules, bytes, list, n - 1);
        lemma_inactive_list_undecided(config, global_rules, bytes, list, n - 1);
    }
}

/// A model without compiler facts plans to nothing: when no unit of any list is
/// mapped to compiler code and no block edge is listed, there is no finding.
pub proof fn lemma_inactive_model_plans_nothing(
    config: Config,
    global_rules: RuleMask,
    bytes: Seq<u8>,
    model: SourceModel,
)
    requires
        model.layout_edges@.len() == 0,
        forall|l: int, u: int|
            0 <= l < model.lists@.len() && 0 <= u < model.lists@[l].units@.len()
                ==> !(#[trigger] model.lists@[l].units@[u]).active,
    ensures
        expected_findings(config, global_rules, bytes, model).len() == 0,
{
    lemma_inactive_lists_findings(config, global_rules, bytes, model.lists@);
    assert(edge_findings(bytes, model.layout_edges@).len() == 0);
}

/// A source parsed without compiler facts plans nothing: its lowered model
/// is inactive (no unit mapped, no removable padding), so no finding comes of it.
pub proof fn lemma_unmapped_source_plans_nothing(
    config: Config,
    global_rules: RuleMask,
    bytes: Seq<u8>,
    model: SourceModel,
)
    requires
        crate::syntax::lower::inactive(model),
    ensures
        expected_findings(config, global_rules, bytes, model).len() == 0,
{
    lemma_inactive_model_plans_nothing(config, global_rules, bytes, model);
}

/// The findings of lists none of whose units is active are none.
proof fn lemma_inactive_lists_findings(config: Config, global_rules: RuleMask, bytes: Seq<u8>, lists: Seq<UnitList>)
    requires
        forall|l: int, u: int|
            0 <= l < lists.len() && 0 <= u < lists[l].units@.len() ==> !(#[trigger] lists[l].units@[u]).active,
    ensures
        lists_findings(config, global_rules, bytes, lists).len() == 0,
    decreases lists.len(),
{
    if lists.len() > 0 {
        let last = lists.last();
        assert forall|u: int| 0 <= u < last.units@.len() implies !(#[trigger] last.units@[u]).active by {
            assert(lists[lists.len() - 1].units@[u] == last.units@[u]);
        }
        assert forall|l: int, u: int|
            0 <= l < lists.drop_last().len() && 0 <= u < lists.drop_last()[l].units@.len() implies !(
            #[trigger] lists.drop_last()[l].units@[u]).active by {
            assert(lists.drop_last()[l] == lists[l]);
        }
        lemma_inactive_lists_findings(config, global_rules, bytes, lists.drop_last());
        lemma_inactive_gap_findings(config, global_rules, bytes, last, last.gaps@.len() as int);
    }
}

/// Every edit that planning gives expects exactly the source bytes of its span.
pub proof fn lemma_finding_edits_expect_source(
    config: Config,
    global_rules: RuleMask,
    bytes: Seq<u8>,
    model: SourceModel,
    k: int,
)
    requires
        0 <= k < expected_findings(config, global_rules, bytes, model).len(),
        expected_findings(config, global_rules, bytes, model)[k].edit is Some,
    ensures
        ({
            let edit = expected_findings(config, global_rules, bytes, model)[k].edit->Some_0;
            edit.expected == bytes.subrange(edit.range.start as int, edit.range.end as int)
        }),
{
    lemma_views_expect_source_lists(config, global_rules, bytes, model.lists@);
    lemma_views_expect_source_edges(bytes, model.layout_edges@);
    let listed = lists_findings(config, global_rules, bytes, model.lists@);
    let edges = if global_rules@.contains(Rule::Layout) {
        edge_findings(bytes, model.layout_edges@)
    } else {
        Seq::empty()
    };
    if k >= listed.len() {
        assert((listed + edges)[k] == edges[k - listed.len()]);
    } else {
        assert((listed + edges)[k] == listed[k]);
    }
}

/// Whether every edit of the findings expects the source bytes of its span.
pub open spec fn edits_expect_source(bytes: Seq<u8>, findings: Seq<FindingView>) -> bool {
    forall|k: int|
        0 <= k < findings.len() && (#[trigger] findings[k]).edit is Some ==> findings[k].edit->Some_0.expected
            == bytes.subrange(
            findings[k].edit->Some_0.range.start as int,
            findings[k].edit->Some_0.range.end as int,
        )
}

/// The edits of the findings of lists expect the source bytes of their spans.
proof fn lemma_views_expect_source_lists(config: Config, global_rules: RuleMask, bytes: Seq<u8>, lists: Seq<UnitList>)
    ensures
        edits_expect_source(bytes, lists_findings(config, global_rules, bytes, lists)),
    decreases lists.len(),
{
    if lists.len() > 0 {
        let list = lists.last();
        lemma_views_expect_source_lists(config, global_rules, bytes, lists.drop_last());
        lemma_views_expect_source_gaps(bytes, list, planned_decisions(config, global_rules, bytes, list), list.gaps@.len() as int);
        let a = lists_findings(config, global_rules, bytes, lists.drop_last());
        let b = gap_findings(bytes, list, planned_decisions(config, global_rules, bytes, list), list.gaps@.len() as int);
        assert forall|k: int| 0 <= k < (a + b).len() && (#[trigger] (a + b)[k]).edit is Some implies (a
            + b)[k].edit->Some_0.expected == bytes.subrange(
            (a + b)[k].edit->Some_0.range.start as int,
            (a + b)[k].edit->Some_0.range.end as int,
        ) by {
            if k >= a.len() {
                assert((a + b)[k] == b[k - a.len()]);
            } else {
                assert((a + b)[k] == a[k]);
            }
        }
    }
}

/// The edits of the findings at gaps expect the source bytes of their spans.
proof fn lemma_views_expect_source_gaps(bytes: Seq<u8>, list: UnitList, decisions: Seq<Option<Decision>>, n: int)
    ensures
        edits_expect_source(bytes, gap_findings(bytes, list, decisions, n)),
    decreases n,
{
    if n > 0 {
        lemma_views_expect_source_gaps(bytes, list, decisions, n - 1);
    }
}

/// The edits of the findings at block edges expect the source bytes of their spans.
proof fn lemma_views_expect_source_edges(bytes: Seq<u8>, edges: Seq<(ByteRange, usize)>)
    ensures
        edits_expect_source(bytes, edge_findings(bytes, edges)),
    decreases edges.len(),
{
    if edges.len() > 0 {
        lemma_views_expect_source_edges(bytes, edges.drop_last());
    }
}

/// Runs every planning phase over one list.
fn build_decisions(config: &Config, source: &str, global_rules: RuleMask, list: &UnitList) -> (decisions: Vec<
    Option<Decision>,
>)
    ensures
        strengthens(global_rules, *list, Seq::new(list.gaps@.len(), |_i: int| None::<Decision>), decisions@),
        decisions@ == planned_decisions(*config, global_rules, encode_utf8(source@), *list),
{
    let mut decisions: Vec<Option<Decision>> = Vec::new();
    let mut i: usize = 0;
    while i < list.gaps.len()
        invariant
            i <= list.gaps@.len(),
            decisions@ == Seq::new(i as nat, |_i: int| None::<Decision>),
        decreases list.gaps@.len() - i,
    {
        decisions.push(None);
        i = i + 1;
        proof {
            assert(decisions@ =~= Seq::new(i as nat, |_i: int| None::<Decision>));
        }
    }
    let ghost initial = decisions@;
    let cohesive = groups::cohesive(config, list);
    local::apply(config, global_rules, list, &cohesive, &mut decisions);
    let ghost after_local = decisions@;
    local::normalize(config, source, global_rules, list, &mut decisions);
    let ghost after_joins = decisions@;
    setup::apply(config, global_rules, list, &cohesive, &mut decisions);
    let ghost after_setup = decisions@;
    local::cap_blank_lines(global_rules, list, &mut decisions);
    proof {
        decisions::lemma_strengthens_trans(global_rules, *list, initial, after_local, after_joins);
        decisions::lemma_strengthens_trans(global_rules, *list, initial, after_joins, after_setup);
        decisions::lemma_strengthens_trans(global_rules, *list, initial, after_setup, decisions@);
    }
    decisions
}

/// Copies a list of units.
fn clone_units(units: &Vec<Unit>) -> (copy: Vec<Unit>)
    ensures
        copy@.len() == units@.len(),
        forall|k: int| 0 <= k < units@.len() ==> same_unit(#[trigger] copy@[k], units@[k]),
{
    let mut copy: Vec<Unit> = Vec::new();
    let mut i: usize = 0;
    while i < units.len()
        invariant
            i <= units@.len(),
            copy@.len() == i,
            forall|k: int| 0 <= k < i ==> same_unit(#[trigger] copy@[k], units@[k]),
        decreases units@.len() - i,
    {
        copy.push(units[i].clone());
        i = i + 1;
    }
    copy
}

/// Whether two units agree in every field, facts taken by value.
pub open spec fn same_unit(a: Unit, b: Unit) -> bool {
    &&& a.range == b.range
    &&& a.code_range == b.code_range
    &&& a.kind == b.kind
    &&& a.is_tail == b.is_tail
    &&& a.is_guard == b.is_guard
    &&& a.is_empty_loop == b.is_empty_loop
    &&& a.is_loop_exit == b.is_loop_exit
    &&& a.is_bare_return == b.is_bare_return
    &&& a.active == b.active
    &&& a.protected == b.protected
    &&& a.facts@ == b.facts@
    &&& a.enabled == b.enabled
    &&& a.anchor == b.anchor
}

/// The list with every decided gap set to its decided blank-line count.
fn with_decided_gaps(list: &UnitList, decisions: &Vec<Option<Decision>>) -> (fixed: UnitList)
    requires
        decisions@.len() == list.gaps@.len(),
    ensures
        decided_layout(*list, decisions@, fixed),
{
    let mut gaps: Vec<Gap> = Vec::new();
    let mut i: usize = 0;
    while i < list.gaps.len()
        invariant
            i <= list.gaps@.len(),
            decisions@.len() == list.gaps@.len(),
            gaps@.len() == i,
            forall|g: int| 0 <= g < i ==> #[trigger] gaps@[g] == decided_gap(list.gaps@[g], decisions@[g]),
        decreases list.gaps@.len() - i,
    {
        let mut gap = list.gaps[i];
        if i < decisions.len() {
            if let Some(decision) = &decisions[i] {
                gap.blank_lines = decision.blanks;
            }
        }
        gaps.push(gap);
        i = i + 1;
    }
    UnitList {
        units: clone_units(&list.units),
        gaps,
        executable_count: list.executable_count,
        item_list: list.item_list,
    }
}

/// A gap with the blank-line count that a decision asks for, if any.
pub open spec fn decided_gap(gap: Gap, decision: Option<Decision>) -> Gap {
    match decision {
        Some(d) => Gap {
            range: gap.range,
            blank_lines: d.blanks,
            vertical: gap.vertical,
            protected: gap.protected,
            joinable: gap.joinable,
        },
        None => gap,
    }
}

/// Whether `fixed` is `list` laid out as `decisions` ask: the same units, and each
/// decided gap holding the decided number of blank lines.
pub open spec fn decided_layout(list: UnitList, decisions: Seq<Option<Decision>>, fixed: UnitList) -> bool {
    &&& fixed.units@.len() == list.units@.len()
    &&& forall|u: int| 0 <= u < list.units@.len() ==> same_unit(#[trigger] fixed.units@[u], list.units@[u])
    &&& fixed.gaps@.len() == list.gaps@.len()
    &&& forall|g: int| 0 <= g < list.gaps@.len() ==> #[trigger] fixed.gaps@[g] == decided_gap(list.gaps@[g], decisions[g])
    &&& fixed.executable_count == list.executable_count
    &&& fixed.item_list == list.item_list
}

/// Whether the planned layout of a list is a fixed point: laid out as planned,
/// the list plans again to decisions that ask for the blank lines it has.
pub open spec fn replans_same(config: Config, global_rules: RuleMask, bytes: Seq<u8>, list: UnitList) -> bool {
    exists|fixed: UnitList|
        #![trigger decided_layout(list, planned_decisions(config, global_rules, bytes, list), fixed)]
        decided_layout(list, planned_decisions(config, global_rules, bytes, list), fixed) && forall|j: int|
            0 <= j < fixed.gaps@.len() && planned_decisions(config, global_rules, bytes, fixed)[j] is Some
                ==> #[trigger] planned_decisions(config, global_rules, bytes, fixed)[j]->Some_0.blanks
                == fixed.gaps@[j].blank_lines
}

/// Whether planning a list laid out as planned asks, somewhere, for another
/// number of blank lines than that layout has: the planned fix is no fixed point.
pub open spec fn replans_differently(config: Config, global_rules: RuleMask, bytes: Seq<u8>, list: UnitList) -> bool {
    exists|fixed: UnitList|
        #![trigger decided_layout(list, planned_decisions(config, global_rules, bytes, list), fixed)]
        decided_layout(list, planned_decisions(config, global_rules, bytes, list), fixed) && exists|j: int|
            0 <= j < fixed.gaps@.len() && planned_decisions(config, global_rules, bytes, fixed)[j] is Some
                && #[trigger] planned_decisions(config, global_rules, bytes, fixed)[j]->Some_0.blanks
                != fixed.gaps@[j].blank_lines
}

/// Number of line feeds in a byte slice.
fn count_line_feeds(bytes: &[u8]) -> (count: usize)
    ensures
        count == line_feed_count(bytes@),
{
    let mut count: usize = 0;
    let mut i: usize = 0;
    while i < bytes.len()
        invariant
            i <= bytes@.len(),
            count == line_feed_count(bytes@.take(i as int)),
            count <= i,
        decreases bytes@.len() - i,
    {
        proof {
            assert(bytes@.take(i + 1).drop_last() =~= bytes@.take(i as int));
        }
        if bytes[i] == 10 {
            count = count + 1;
        }
        i = i + 1;
    }
    proof {
        assert(bytes@.take(i as int) =~= bytes@);
    }
    count
}

/// Inserting a finding inserts its plain values, and adds them to the multiset.
proof fn lemma_insert_view(findings: Seq<Finding>, p: int, finding: Finding)
    requires
        0 <= p <= findings.len(),
    ensures
        finding_views(findings.insert(p, finding)).to_multiset() == finding_views(findings).to_multiset().insert(
            finding@,
        ),
{
    assert(finding_views(findings.insert(p, finding)) =~= finding_views(findings).insert(p, finding@));
    vstd::seq_lib::to_multiset_insert(finding_views(findings), p, finding@);
}

/// Whether `a` must be placed after `b` in diagnostic order.
fn finding_after(a: &Finding, b: &Finding) -> (later: bool)
    ensures
        later == !finding_before_or_at(*a, *b),
{
    let ka = a.rule.index();
    let kb = b.rule.index();
    !(a.range.start < b.range.start || (a.range.start == b.range.start && (a.range.end
        < b.range.end || (a.range.end == b.range.end && ka <= kb))))
}

/// Diagnostic order is total: one of any two findings may precede the other.
proof fn lemma_finding_order_total(a: Finding, b: Finding)
    ensures
        finding_before_or_at(a, b) || finding_before_or_at(b, a),
{
}

/// Diagnostic order is transitive.
proof fn lemma_finding_order_trans(a: Finding, b: Finding, c: Finding)
    requires
        finding_before_or_at(a, b),
        finding_before_or_at(b, c),
    ensures
        finding_before_or_at(a, c),
{
}

/// Inserts a finding after every finding that does not follow it, keeping the order.
fn insert_finding(findings: &mut Vec<Finding>, finding: Finding)
    requires
        findings_sorted(old(findings)@),
        edits_match_findings(old(findings)@),
        finding.edit matches Some(edit) ==> (edit.rule == finding.rule && edit.range
            == finding.range),
    ensures
        findings_sorted(final(findings)@),
        edits_match_findings(final(findings)@),
        final(findings)@.len() == old(findings)@.len() + 1,
        exists|p: int| 0 <= p <= old(findings)@.len() && final(findings)@ == old(findings)@.insert(p, finding),
{
    let mut position = findings.len();
    while position > 0 && finding_after(&findings[position - 1], &finding)
        invariant
            position <= findings@.len(),
            forall|k: int|
                position <= k < findings@.len() ==> !finding_before_or_at(
                    #[trigger] findings@[k],
                    finding,
                ),
        decreases position,
    {
        position = position - 1;
    }
    let ghost before = findings@;
    findings.insert(position, finding);
    proof {
        let after = findings@;
        assert(after =~= before.insert(position as int, finding));
        assert forall|a: int, b: int| 0 <= a < b < after.len() implies finding_before_or_at(
            #[trigger] after[a],
            #[trigger] after[b],
        ) by {
            if b < position {
                assert(after[a] == before[a] && after[b] == before[b]);
            } else if b == position {
                assert(after[a] == before[a]);
                if a < position - 1 {
                    lemma_finding_order_trans(before[a], before[position - 1], finding);
                }
            } else if a == position {
                assert(after[b] == before[b - 1]);
                lemma_finding_order_total(before[b - 1], finding);
            } else if a < position {
                assert(after[a] == before[a] && after[b] == before[b - 1]);
            } else {
                assert(after[a] == before[a - 1] && after[b] == before[b - 1]);
            }
        }
        assert forall|k: int| 0 <= k < after.len() && (#[trigger] after[k]).edit is Some implies (
        after[k].edit->Some_0.rule == after[k].rule && after[k].edit->Some_0.range
            == after[k].range) by {
            if k < position {
                assert(after[k] == before[k]);
            } else if k > position {
                assert(after[k] == before[k - 1]);
            }
        }
    }
}

/// The message for a configuration that failed validation.
fn config_error(config: &Config) -> (result: Result<(), String>)
    ensures
        result is Ok <==> validation_error(*config) is None,
        result matches Err(message) ==> validation_error(*config) == Some(message@),
{
    config.validate()
}

/// Whether `message` is a reason for which planning may refuse a model of
/// `bytes`: the configuration's validation message; a list whose gaps do not
/// match its units; a gap with a finding whose span is no character range of the
/// source; a list whose planned layout, planned again, asks for other blank
/// lines; a block edge, with the layout rule on, whose span is no character
/// range; or a fault of the edits of the findings that planning gives.
pub open spec fn plan_failure(config: Config, bytes: Seq<u8>, model: SourceModel, message: Seq<char>) -> bool {
    ||| validation_error(config) == Some(message)
    ||| (message == "invalid source model: gap/unit count mismatch"@ && exists|k: int|
        0 <= k < model.lists@.len() && !consistent(#[trigger] model.lists@[k]))
    ||| (message == "invalid gap range"@ && exists|global_rules: RuleMask, k: int, i: int|
        #![trigger planned_decisions(config, global_rules, bytes, model.lists@[k]), model.lists@[k].gaps@[i]]
        global_rules@ == effective_rules(config) && 0 <= k < model.lists@.len() && 0 <= i
            < model.lists@[k].gaps@.len() && gap_finding(
            bytes,
            model.lists@[k],
            planned_decisions(config, global_rules, bytes, model.lists@[k]),
            i,
        ) is Some && !char_range(
            bytes,
            model.lists@[k].gaps@[i].range.start as int,
            model.lists@[k].gaps@[i].range.end as int,
        ))
    ||| (message == "internal error: spacing constraints are not idempotent"@ && exists|
        global_rules: RuleMask,
        k: int,
    |
        #![trigger replans_differently(config, global_rules, bytes, model.lists@[k])]
        global_rules@ == effective_rules(config) && 0 <= k < model.lists@.len() && replans_differently(
            config,
            global_rules,
            bytes,
            model.lists@[k],
        ))
    ||| (message == "invalid block edge range"@ && effective_rules(config).contains(Rule::Layout) && exists|e: int|
        0 <= e < model.layout_edges@.len() && !char_range(
            bytes,
            (#[trigger] model.layout_edges@[e]).0.start as int,
            model.layout_edges@[e].0.end as int,
        ))
    ||| exists|global_rules: RuleMask, findings: Seq<Finding>|
        #![trigger expected_findings(config, global_rules, bytes, model), finding_edits(findings)]
        global_rules@ == effective_rules(config) && finding_views(findings).to_multiset()
            == expected_findings(config, global_rules, bytes, model).to_multiset() && edits_fault(
            bytes,
            finding_edits(findings),
        ) == Some(message)
}

/// Whether a gap of `list` that has a finding spans no character range of `bytes`.
pub open spec fn bad_gap_range(config: Config, global_rules: RuleMask, bytes: Seq<u8>, list: UnitList) -> bool {
    exists|i: int|
        0 <= i < list.gaps@.len() && #[trigger] gap_finding(
            bytes,
            list,
            planned_decisions(config, global_rules, bytes, list),
            i,
        ) is Some && !char_range(bytes, list.gaps@[i].range.start as int, list.gaps@[i].range.end as int)
}

/// Whether a list passes every check that planning makes of it: its gaps match
/// its units, every gap with a finding is a character range of the source, and
/// its planned layout plans again to itself.
pub open spec fn list_passes(config: Config, global_rules: RuleMask, bytes: Seq<u8>, list: UnitList) -> bool {
    &&& consistent(list)
    &&& !bad_gap_range(config, global_rules, bytes, list)
    &&& replans_same(config, global_rules, bytes, list)
}

/// The message of the first check that planning makes of a list and the list
/// fails: the count of its gaps, then the ranges of its gaps in order, then the
/// stability of its planned layout.
pub open spec fn list_error(config: Config, global_rules: RuleMask, bytes: Seq<u8>, list: UnitList) -> Seq<char> {
    if !consistent(list) {
        "invalid source model: gap/unit count mismatch"@
    } else if bad_gap_range(config, global_rules, bytes, list) {
        "invalid gap range"@
    } else {
        "internal error: spacing constraints are not idempotent"@
    }
}

/// Whether the first `k` lists all pass planning's checks.
pub open spec fn lists_pass(config: Config, global_rules: RuleMask, bytes: Seq<u8>, lists: Seq<UnitList>, k: int) -> bool {
    forall|j: int| 0 <= j < k ==> list_passes(config, global_rules, bytes, #[trigger] lists[j])
}

/// Whether `message` is the first failure that planning meets once the
/// configuration is valid: lists are checked in order, and the first list that
/// fails a check reports that list's first failure; only when every list passes
/// does a later check (block edges, then edits) report.
pub open spec fn reported_first(config: Config, bytes: Seq<u8>, model: SourceModel, message: Seq<char>) -> bool {
    exists|global_rules: RuleMask, k: int|
        #![trigger lists_pass(config, global_rules, bytes, model.lists@, k)]
        global_rules@ == effective_rules(config) && 0 <= k <= model.lists@.len() && lists_pass(
            config,
            global_rules,
            bytes,
            model.lists@,
            k,
        ) && (k < model.lists@.len() ==> message == list_error(config, global_rules, bytes, model.lists@[k]))
}

/// Plans spacing changes without mutating the source.
///
/// Rejects invalid configuration, inconsistent gap/unit counts, invalid source
/// ranges, non-idempotent constraints, or stale, conflicting, and non-trivia edits.
/// A plan that is returned holds, in diagnostic order, one finding for each gap
/// whose planned decision asks for another blank-line count and one for each block
/// edge with padding when the layout rule is on; its edits all apply to `source`
/// and change only whitespace.
pub fn plan(config: &Config, source: &str, model: &SourceModel) -> (result: Result<Plan, String>)
    requires
        total_gaps(model.lists@) <= usize::MAX,
    ensures
        validation_error(*config) matches Some(message) ==> result matches Err(e) && e@ == message,
        result matches Err(e) ==> plan_failure(*config, encode_utf8(source@), *model, e@),
        validation_error(*config) is None ==> (result matches Err(e) ==> reported_first(
            *config,
            encode_utf8(source@),
            *model,
            e@,
        )),
        result matches Ok(plan) ==> {
            &&& validation_error(*config) is None
            &&& forall|k: int| 0 <= k < model.lists@.len() ==> consistent(#[trigger] model.lists@[k])
            &&& edits_fault(encode_utf8(source@), finding_edits(plan.findings@)) is None
            &&& findings_sorted(plan.findings@)
            &&& edits_match_findings(plan.findings@)
            &&& plan.skipped_boundaries == total_blocked(model.lists@)
            &&& exists|global_rules: RuleMask|
                global_rules@ == effective_rules(*config) && finding_views(plan.findings@).to_multiset()
                    == expected_findings(*config, global_rules, encode_utf8(source@), *model).to_multiset()
                    && forall|k: int|
                    0 <= k < model.lists@.len() ==> replans_same(
                        *config,
                        global_rules,
                        encode_utf8(source@),
                        #[trigger] model.lists@[k],
                    )
        },
{
    config_error(config)?;
    let global_rules = config.enabled();
    let mut result = Plan::default();
    let ghost bytes = encode_utf8(source@);
    let ghost mut produced: Seq<FindingView> = Seq::empty();
    let source_bytes = source.as_bytes();
    let mut index: usize = 0;
    proof {
        assert(finding_views(result.findings@) =~= produced);
        assert(model.lists@.subrange(0, 0) =~= Seq::<UnitList>::empty());
    }
    while index < model.lists.len()
        invariant
            index <= model.lists@.len(),
            validation_error(*config) is None,
            global_rules@ == effective_rules(*config),
            source_bytes@ == bytes,
            bytes == encode_utf8(source@),
            total_gaps(model.lists@) <= usize::MAX,
            forall|k: int| 0 <= k < index ==> consistent(#[trigger] model.lists@[k]),
            findings_sorted(result.findings@),
            edits_match_findings(result.findings@),
            result.skipped_boundaries == total_blocked(model.lists@.subrange(0, index as int)),
            total_gaps(model.lists@.subrange(0, index as int)) <= total_gaps(model.lists@),
            produced == lists_findings(*config, global_rules, bytes, model.lists@.subrange(0, index as int)),
            finding_views(result.findings@).to_multiset() == produced.to_multiset(),
            forall|k: int| 0 <= k < index ==> replans_same(*config, global_rules, bytes, #[trigger] model.lists@[k]),
            lists_pass(*config, global_rules, bytes, model.lists@, index as int),
        decreases model.lists@.len() - index,
    {
        let list = &model.lists[index];
        let expected = if list.units.len() == 0 {
            0
        } else {
            list.units.len() - 1
        };
        if list.gaps.len() != expected {
            assert(!consistent(model.lists@[index as int]));
            assert(reported_first(*config, bytes, *model, "invalid source model: gap/unit count mismatch"@)) by {
                assert(lists_pass(*config, global_rules, bytes, model.lists@, index as int));
            }
            return Err(String::from_str("invalid source model: gap/unit count mismatch"));
        }
        assert(consistent(model.lists@[index as int]));
        let decisions = build_decisions(config, source, global_rules, list);
        let ghost skipped_before = result.skipped_boundaries;
        let ghost produced_before = produced;
        proof {
            lemma_total_gaps_step(model.lists@, index as int);
            lemma_blocked_count_bound(*list, list.gaps@.len() as int);
            lemma_total_blocked_bound(model.lists@.subrange(0, index as int));
        }
        let mut i: usize = 0;
        while i < decisions.len()
            invariant
                index < model.lists@.len(),
                *list == model.lists@[index as int],
                global_rules@ == effective_rules(*config),
                decisions@.len() == list.gaps@.len(),
                decisions@ == planned_decisions(*config, global_rules, bytes, *list),
                i <= decisions@.len(),
                validation_error(*config) is None,
                source_bytes@ == bytes,
                bytes == encode_utf8(source@),
                findings_sorted(result.findings@),
                edits_match_findings(result.findings@),
                result.skipped_boundaries == skipped_before + blocked_count(*list, i as int),
                skipped_before + list.gaps@.len() <= usize::MAX,
                blocked_count(*list, i as int) <= i,
                produced == produced_before + gap_findings(bytes, *list, decisions@, i as int),
                finding_views(result.findings@).to_multiset() == produced.to_multiset(),
                consistent(*list),
                lists_pass(*config, global_rules, bytes, model.lists@, index as int),
                forall|t: int|
                    0 <= t < i ==> !(#[trigger] gap_finding(bytes, *list, decisions@, t) is Some && !char_range(
                        bytes,
                        list.gaps@[t].range.start as int,
                        list.gaps@[t].range.end as int,
                    )),
            decreases decisions@.len() - i,
        {
            if blocked(list, i) {
                result.skipped_boundaries = result.skipped_boundaries + 1;
            }
            proof {
                lemma_blocked_count_bound(*list, i as int + 1);
            }
            if let Some(decision) = &decisions[i] {
                let gap = &list.gaps[i];
                if gap.blank_lines != decision.blanks {
                    let start = gap.range.start;
                    let end = gap.range.end;
                    if !(start <= end && end <= source_bytes.len() && source.is_char_boundary(
                        start,
                    ) && source.is_char_boundary(end)) {
                        proof {
                            let k = index as int;
                            assert(gap_finding(
                                bytes,
                                model.lists@[k],
                                planned_decisions(*config, global_rules, bytes, model.lists@[k]),
                                i as int,
                            ) is Some);
                            assert(model.lists@[k].gaps@[i as int] == *gap);
                            assert(!char_range(bytes, start as int, end as int));
                            assert(plan_failure(*config, bytes, *model, "invalid gap range"@));
                            assert(bad_gap_range(*config, global_rules, bytes, model.lists@[k]));
                            assert(reported_first(*config, bytes, *model, "invalid gap range"@)) by {
                                assert(lists_pass(*config, global_rules, bytes, model.lists@, k));
                            }
                        }
                        return Err(String::from_str("invalid gap range"));
                    }
                    let old = crate::slices::substring(source, start, end);
                    let edit = if gap.vertical {
                        match blank_line_replacement(old, decision.blanks) {
                            Some(replacement) => {
                                proof {
                                    lemma_replaced_gap(
                                        encode_utf8(old@),
                                        decision.blanks as nat,
                                        encode_utf8(replacement@),
                                    );
                                }
                                Some(
                                    Edit {
                                        range: gap.range,
                                        expected: String::from_str(old),
                                        replacement,
                                        rule: decision.rule,
                                    },
                                )
                            },
                            None => None,
                        }
                    } else {
                        None
                    };
                    let anchor = match decision.anchor {
                        Some(anchor) => anchor,
                        None => if i + 1 < list.units.len() {
                            list.units[i + 1].anchor
                        } else {
                            0
                        },
                    };
                    let finding = Finding {
                        rule: decision.rule,
                        anchor,
                        range: gap.range,
                        message: String::from_str(decision.message),
                        edit,
                    };
                    let ghost findings_before = result.findings@;
                    proof {
                        assert(Some(finding@) == gap_finding(bytes, *list, decisions@, i as int));
                    }
                    insert_finding(&mut result.findings, finding);
                    proof {
                        let p = choose|p: int|
                            0 <= p <= findings_before.len() && result.findings@ == findings_before.insert(
                                p,
                                finding,
                            );
                        lemma_insert_view(findings_before, p, finding);
                        vstd::seq_lib::to_multiset_build(produced, finding@);
                        produced = produced.push(finding@);
                    }
                }
            }
            proof {
                assert(produced == produced_before + gap_findings(bytes, *list, decisions@, i + 1));
            }
            i = i + 1;
        }
        proof {
            assert(!bad_gap_range(*config, global_rules, bytes, *list)) by {
                if bad_gap_range(*config, global_rules, bytes, *list) {
                    let t = choose|t: int|
                        0 <= t < list.gaps@.len() && #[trigger] gap_finding(
                            bytes,
                            *list,
                            planned_decisions(*config, global_rules, bytes, *list),
                            t,
                        ) is Some && !char_range(
                            bytes,
                            list.gaps@[t].range.start as int,
                            list.gaps@[t].range.end as int,
                        );
                    assert(gap_finding(bytes, *list, decisions@, t) is Some);
                }
            }
        }
        // The policy on the resulting gap model must be stable, independently of
        // offsets. The source-adapter tests also reparse and check actual edits.
        let fixed = with_decided_gaps(list, &decisions);
        let second = build_decisions(config, source, global_rules, &fixed);
        let mut j: usize = 0;
        while j < second.len()
            invariant
                j <= second@.len(),
                validation_error(*config) is None,
                second@ == planned_decisions(*config, global_rules, bytes, fixed),
                bytes == encode_utf8(source@),
                consistent(*list),
                !bad_gap_range(*config, global_rules, bytes, *list),
                lists_pass(*config, global_rules, bytes, model.lists@, index as int),
                decided_layout(*list, decisions@, fixed),
                decisions@ == planned_decisions(*config, global_rules, bytes, *list),
                global_rules@ == effective_rules(*config),
                index < model.lists@.len(),
                *list == model.lists@[index as int],
                forall|t: int|
                    0 <= t < j && second@[t] is Some ==> #[trigger] second@[t]->Some_0.blanks
                        == fixed.gaps@[t].blank_lines,
                second@.len() == fixed.gaps@.len(),
            decreases second@.len() - j,
        {
            if let Some(decision) = &second[j] {
                if j < fixed.gaps.len() && decision.blanks != fixed.gaps[j].blank_lines {
                    proof {
                        assert(planned_decisions(*config, global_rules, bytes, fixed)[j as int]->Some_0.blanks
                            != fixed.gaps@[j as int].blank_lines);
                        assert(replans_differently(*config, global_rules, bytes, model.lists@[index as int]));
                        assert(reported_first(
                            *config,
                            bytes,
                            *model,
                            "internal error: spacing constraints are not idempotent"@,
                        )) by {
                            assert(lists_pass(*config, global_rules, bytes, model.lists@, index as int));
                        }
                        assert(plan_failure(
                            *config,
                            bytes,
                            *model,
                            "internal error: spacing constraints are not idempotent"@,
                        ));
                    }
                    return Err(
                        String::from_str("internal error: spacing constraints are not idempotent"),
                    );
                }
            }
            j = j + 1;
        }
        proof {
            assert(replans_same(*config, global_rules, bytes, model.lists@[index as int]));
            assert(list_passes(*config, global_rules, bytes, model.lists@[index as int]));
            assert(lists_pass(*config, global_rules, bytes, model.lists@, index + 1));
        }
        index = index + 1;
        proof {
            assert(model.lists@.subrange(0, index as int).drop_last() =~= model.lists@.subrange(
                0,
                index as int - 1,
            ));
            assert(model.lists@.subrange(0, index as int).last() == *list);
        }
    }
    proof {
        assert(model.lists@.subrange(0, index as int) =~= model.lists@);
        assert(lists_pass(*config, global_rules, bytes, model.lists@, model.lists@.len() as int));
    }
    let ghost listed = produced;
    if global_rules.has(Rule::Layout) {
        let mut e: usize = 0;
        proof {
            assert(model.layout_edges@.subrange(0, 0) =~= Seq::<(ByteRange, usize)>::empty());
            assert(produced =~= listed + edge_findings(bytes, model.layout_edges@.subrange(0, 0)));
        }
        while e < model.layout_edges.len()
            invariant
                e <= model.layout_edges@.len(),
                validation_error(*config) is None,
                global_rules@ == effective_rules(*config),
                global_rules@.contains(Rule::Layout),
                forall|k: int| 0 <= k < model.lists@.len() ==> consistent(#[trigger] model.lists@[k]),
                lists_pass(*config, global_rules, bytes, model.lists@, model.lists@.len() as int),
                result.skipped_boundaries == total_blocked(model.lists@),
                source_bytes@ == bytes,
                bytes == encode_utf8(source@),
                findings_sorted(result.findings@),
                edits_match_findings(result.findings@),
                produced == listed + edge_findings(bytes, model.layout_edges@.subrange(0, e as int)),
                finding_views(result.findings@).to_multiset() == produced.to_multiset(),
            decreases model.layout_edges@.len() - e,
        {
            let (range, anchor) = model.layout_edges[e];
            proof {
                assert(model.layout_edges@.subrange(0, e + 1).drop_last() =~= model.layout_edges@.subrange(
                    0,
                    e as int,
                ));
                assert(model.layout_edges@.subrange(0, e + 1).last() == (range, anchor));
            }
            let start = range.start;
            let end = range.end;
            if !(start <= end && end <= source_bytes.len() && source.is_char_boundary(start)
                && source.is_char_boundary(end)) {
                proof {
                    assert(model.layout_edges@[e as int] == (range, anchor));
                    assert(!char_range(bytes, start as int, end as int));
                    assert(plan_failure(*config, bytes, *model, "invalid block edge range"@));
                    assert(reported_first(*config, bytes, *model, "invalid block edge range"@)) by {
                        assert(lists_pass(*config, global_rules, bytes, model.lists@, model.lists@.len() as int));
                    }
                }
                return Err(String::from_str("invalid block edge range"));
            }
            let old = crate::slices::substring(source, start, end);
            if count_line_feeds(old.as_bytes()) > 1 {
                let replacement = blank_line_replacement(old, 0);
                proof {
                    if line_feed_count(encode_utf8(old@)) > 1 {
                        lemma_line_feed_found(encode_utf8(old@));
                    }
                }
                if let Some(replacement) = replacement {
                    proof {
                        lemma_replaced_gap(encode_utf8(old@), 0, encode_utf8(replacement@));
                    }
                    let finding = Finding {
                        rule: Rule::Layout,
                        anchor,
                        range,
                        message: String::from_str("remove empty padding at this block edge"),
                        edit: Some(
                            Edit {
                                range,
                                expected: String::from_str(old),
                                replacement,
                                rule: Rule::Layout,
                            },
                        ),
                    };
                    let ghost findings_before = result.findings@;
                    proof {
                        assert(Some(finding@) == edge_finding(bytes, (range, anchor)));
                    }
                    insert_finding(&mut result.findings, finding);
                    proof {
                        let p = choose|p: int|
                            0 <= p <= findings_before.len() && result.findings@ == findings_before.insert(
                                p,
                                finding,
                            );
                        lemma_insert_view(findings_before, p, finding);
                        vstd::seq_lib::to_multiset_build(produced, finding@);
                        produced = produced.push(finding@);
                    }
                }
            }
            proof {
                assert(produced == listed + edge_findings(bytes, model.layout_edges@.subrange(0, e + 1)));
            }
            e = e + 1;
        }
        proof {
            assert(model.layout_edges@.subrange(0, e as int) =~= model.layout_edges@);
        }
    }
    proof {
        assert(produced =~= expected_findings(*config, global_rules, bytes, *model));
    }
    // Validate the whole set, including insertions shared by nested source lists.
    let edits = result.edits();
    match validate_edits(source, edits.as_slice()) {
        Ok(_) => Ok(result),
        Err(message) => {
            assert(edits_fault(bytes, finding_edits(result.findings@)) == Some(message@));
            assert(reported_first(*config, bytes, *model, message@)) by {
                assert(lists_pass(*config, global_rules, bytes, model.lists@, model.lists@.len() as int));
            }
            Err(message)
        },
    }
}

/// More than one line feed means at least one.
proof fn lemma_line_feed_found(bytes: Seq<u8>)
    requires
        line_feed_count(bytes) > 0,
    ensures
        bytes.contains(10u8),
    decreases bytes.len(),
{
    if bytes.last() == 10 {
        assert(bytes[bytes.len() - 1] == 10u8);
    } else {
        lemma_line_feed_found(bytes.drop_last());
        let k = choose|k: int| 0 <= k < bytes.drop_last().len() && bytes.drop_last()[k] == 10u8;
        assert(bytes[k] == 10u8);
    }
}

/// Counting blocked boundaries never exceeds the number counted.
proof fn lemma_blocked_count_bound(list: UnitList, end: int)
    requires
        0 <= end,
    ensures
        blocked_count(list, end) <= end,
    decreases end,
{
    if end > 0 {
        lemma_blocked_count_bound(list, end - 1);
    }
}

/// The boundaries of a prefix of lists, plus those of the next list, stay within the total.
proof fn lemma_total_gaps_step(lists: Seq<UnitList>, index: int)
    requires
        0 <= index < lists.len(),
    ensures
        total_gaps(lists.subrange(0, index)) + lists[index].gaps@.len() == total_gaps(
            lists.subrange(0, index + 1),
        ),
        total_gaps(lists.subrange(0, index + 1)) <= total_gaps(lists),
    decreases lists.len() - index,
{
    assert(lists.subrange(0, index + 1).drop_last() =~= lists.subrange(0, index));
    if index + 1 < lists.len() {
        lemma_total_gaps_step(lists, index + 1);
    } else {
        assert(lists.subrange(0, index + 1) =~= lists);
    }
}

/// Blocked boundaries of a prefix of lists never exceed their boundaries.
proof fn lemma_total_blocked_bound(lists: Seq<UnitList>)
    ensures
        total_blocked(lists) <= total_gaps(lists),
    decreases lists.len(),
{
    if lists.len() > 0 {
        lemma_total_blocked_bound(lists.drop_last());
        lemma_blocked_count_bound(lists.last(), lists.last().gaps@.len() as int);
    }
}

} // verus!
