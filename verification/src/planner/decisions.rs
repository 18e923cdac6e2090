//! Boundary eligibility and priority arbitration shared by every planning phase.
use vstd::prelude::*;

use crate::model::{Rule, RuleMask, Unit, UnitList};

verus! {

/// A requested blank-line count for one boundary, with its owning rule and priority.
#[derive(Clone, Copy, Debug)]
pub struct Decision {
    /// Required number of blank lines.
    pub blanks: usize,
    /// Check responsible for the request.
    pub rule: Rule,
    /// Explanation shown with the diagnostic.
    pub message: &'static str,
    /// Arbitration priority; a slot only accepts a strictly higher priority.
    pub priority: u8,
    /// Compiler node at which to report, when not the following unit.
    pub anchor: Option<usize>,
}

/// The priority of a mandatory join.
pub open spec fn mandatory_priority() -> u8 {
    100
}

/// Whether a rule is enabled both globally and at a unit.
pub open spec fn spec_enabled(global_rules: RuleMask, unit: Unit, rule: Rule) -> bool {
    global_rules@.contains(rule) && unit.enabled@.contains(rule)
}

/// Whether the boundary after unit `i` must keep its existing spacing: it does not
/// exist, or it or one of its units is protected, or a unit is inactive.
pub open spec fn spec_blocked(list: UnitList, i: int) -> bool {
    ||| i < 0
    ||| i >= list.gaps@.len()
    ||| i + 1 >= list.units@.len()
    ||| list.gaps@[i].protected
    ||| list.units@[i].protected
    ||| list.units@[i + 1].protected
    ||| !list.units@[i].active
    ||| !list.units@[i + 1].active
}

/// Whether `put` accepts `decision` at boundary `i`: the boundary is editable, the
/// rule is enabled at the following unit, and no decision of equal or higher
/// priority owns the slot.
pub open spec fn spec_accepts(
    global_rules: RuleMask,
    list: UnitList,
    decisions: Seq<Option<Decision>>,
    i: int,
    decision: Decision,
) -> bool {
    &&& !spec_blocked(list, i)
    &&& spec_enabled(global_rules, list.units@[i + 1], decision.rule)
    &&& 0 <= i < decisions.len()
    &&& !(decisions[i] matches Some(old) && old.priority >= decision.priority)
}

/// The slots after offering `decision` at boundary `i`.
pub open spec fn spec_put(
    global_rules: RuleMask,
    list: UnitList,
    decisions: Seq<Option<Decision>>,
    i: int,
    decision: Decision,
) -> Seq<Option<Decision>> {
    if spec_accepts(global_rules, list, decisions, i, decision) {
        decisions.update(i, Some(decision))
    } else {
        decisions
    }
}

/// Whether every slot of `after` keeps or strengthens the corresponding slot of
/// `before`, only at editable boundaries whose following unit enables the new rule.
pub open spec fn strengthens(
    global_rules: RuleMask,
    list: UnitList,
    before: Seq<Option<Decision>>,
    after: Seq<Option<Decision>>,
) -> bool {
    &&& after.len() == before.len()
    &&& forall|i: int|
        0 <= i < after.len() && after[i] != before[i] ==> {
            &&& !spec_blocked(list, i)
            &&& (#[trigger] after[i] matches Some(new) && spec_enabled(
                global_rules,
                list.units@[i + 1],
                new.rule,
            ) && !(before[i] matches Some(old) && old.priority >= new.priority))
        }
}

/// Strengthening is reflexive and transitive.
pub proof fn lemma_strengthens_trans(
    global_rules: RuleMask,
    list: UnitList,
    a: Seq<Option<Decision>>,
    b: Seq<Option<Decision>>,
    c: Seq<Option<Decision>>,
)
    requires
        strengthens(global_rules, list, a, b),
        strengthens(global_rules, list, b, c),
    ensures
        strengthens(global_rules, list, a, c),
{
    assert forall|i: int| 0 <= i < c.len() && c[i] != a[i] implies {
        &&& !spec_blocked(list, i)
        &&& (#[trigger] c[i] matches Some(new) && spec_enabled(
            global_rules,
            list.units@[i + 1],
            new.rule,
        ) && !(a[i] matches Some(old) && old.priority >= new.priority))
    } by {
        if c[i] == b[i] {
            assert(b[i] != a[i]);
        } else if b[i] != a[i] {
            assert(b[i] is Some);
        }
    }
}

/// A slot offer strengthens the slots.
pub proof fn lemma_put_strengthens(
    global_rules: RuleMask,
    list: UnitList,
    decisions: Seq<Option<Decision>>,
    i: int,
    decision: Decision,
)
    ensures
        strengthens(global_rules, list, decisions, spec_put(global_rules, list, decisions, i, decision)),
{
}

/// Whether `rule` is enabled globally and at `unit`.
pub fn enabled(global_rules: RuleMask, unit: &Unit, rule: Rule) -> (on: bool)
    ensures
        on == spec_enabled(global_rules, *unit, rule),
{
    global_rules.has(rule) && unit.enabled.has(rule)
}

/// Whether the boundary after unit `i` must keep its existing spacing.
pub fn blocked(list: &UnitList, i: usize) -> (b: bool)
    ensures
        b == spec_blocked(*list, i as int),
{
    if i >= list.gaps.len() || list.units.len() == 0 || i >= list.units.len() - 1 {
        return true;
    }
    let gap = &list.gaps[i];
    let unit = &list.units[i];
    let next_unit = &list.units[i + 1];
    gap.protected || unit.protected || next_unit.protected || !unit.active || !next_unit.active
}

/// Offers `decision` for boundary `i`; the slot takes it only if the boundary is
/// editable, the rule is enabled at the following unit, and the priority is higher
/// than any decision already there.
pub fn put(
    global_rules: RuleMask,
    list: &UnitList,
    decisions: &mut Vec<Option<Decision>>,
    i: usize,
    decision: Decision,
) -> (accepted: bool)
    ensures
        accepted == spec_accepts(global_rules, *list, old(decisions)@, i as int, decision),
        final(decisions)@ == spec_put(global_rules, *list, old(decisions)@, i as int, decision),
{
    if list.units.len() == 0 || i >= list.units.len() - 1 {
        return false;
    }
    if blocked(list, i) || !enabled(global_rules, &list.units[i + 1], decision.rule) {
        return false;
    }
    if i >= decisions.len() {
        return false;
    }
    if let Some(old) = &decisions[i] {
        if old.priority >= decision.priority {
            return false;
        }
    }
    decisions.set(i, Some(decision));
    true
}

/// A request for one blank line.
pub fn separate(rule: Rule, priority: u8, message: &'static str) -> (decision: Decision)
    ensures
        decision == (Decision { blanks: 1, rule, priority, message, anchor: None }),
{
    Decision { blanks: 1, rule, priority, message, anchor: None }
}

/// A mandatory request for adjacency.
pub fn join(rule: Rule, message: &'static str) -> (decision: Decision)
    ensures
        decision == (Decision { blanks: 0, rule, priority: mandatory_priority(), message, anchor: None }),
{
    Decision { blanks: 0, rule, priority: 100, message, anchor: None }
}

/// An optional request for adjacency within a cohesive phase.
pub fn optional_join(rule: Rule) -> (decision: Decision)
    ensures
        decision == (Decision {
            blanks: 0,
            rule,
            priority: 20,
            message: "remove this separator within a cohesive phase",
            anchor: None,
        }),
{
    let mut decision = join(rule, "remove this separator within a cohesive phase");
    decision.priority = 20;
    decision
}

/// Whether a decision is a mandatory join.
pub open spec fn spec_mandatory_join(decision: Decision) -> bool {
    decision.blanks == 0 && decision.priority == mandatory_priority()
}

/// Whether a decision is a mandatory join.
pub fn mandatory_join(decision: &Decision) -> (mandatory: bool)
    ensures
        mandatory == spec_mandatory_join(*decision),
{
    decision.blanks == 0 && decision.priority == 100
}

/// The blank lines a boundary will have: its decision's, or else its current count,
/// which counts as zero for a joinable editable gap when normalizing.
pub open spec fn spec_effective_blank(
    list: UnitList,
    decisions: Seq<Option<Decision>>,
    i: int,
    normalize: bool,
) -> int {
    if 0 <= i < decisions.len() && decisions[i] is Some {
        decisions[i]->Some_0.blanks as int
    } else if 0 <= i < list.gaps@.len() {
        if normalize && list.gaps@[i].joinable && !spec_blocked(list, i) {
            0
        } else {
            list.gaps@[i].blank_lines as int
        }
    } else {
        0
    }
}

/// The blank lines a boundary will have under the current decisions.
pub fn effective_blank(
    list: &UnitList,
    decisions: &Vec<Option<Decision>>,
    i: usize,
    normalize: bool,
) -> (blanks: usize)
    ensures
        blanks == spec_effective_blank(*list, decisions@, i as int, normalize),
{
    if i < decisions.len() {
        if let Some(d) = &decisions[i] {
            return d.blanks;
        }
    }
    if i < list.gaps.len() {
        let g = &list.gaps[i];
        if normalize && g.joinable && !blocked(list, i) {
            return 0;
        }
        return g.blank_lines;
    }
    0
}

} // verus!
