//! Monotone setup-group splitting over the effective boundary layout.
use vstd::prelude::*;

use super::decisions::{
    blocked, effective_blank, enabled, lemma_put_strengthens, lemma_strengthens_trans,
    mandatory_join, put, separate, spec_accepts, spec_blocked, spec_effective_blank, spec_enabled,
    spec_mandatory_join, spec_put, strengthens, Decision,
};
use super::guard_pair;
use super::local::{marked, no_rule_at, slots_one_blank_or_check, slots_one_blank_or_join};
use crate::config::{Config, Expressions, GuardChain, Overflow, UseIn};
use crate::model::{clone_places, places_view, Place, PlaceView, Rule, RuleMask, Unit, UnitKind, UnitList};
use crate::relations::{control_inputs, intersects, outputs, spec_control_inputs, spec_intersects, spec_outputs};

verus! {

/// Whether boundary `i` holds a mandatory join.
pub open spec fn mandatory_slot(decisions: Seq<Option<Decision>>, i: int) -> bool {
    0 <= i < decisions.len() && decisions[i] is Some && spec_mandatory_join(decisions[i]->Some_0)
}

/// The first unit of the run of adjacent, editable ordinary units that ends just
/// before unit `start`, walking back from `start`.
pub open spec fn run_start(config: Config, list: UnitList, decisions: Seq<Option<Decision>>, start: int) -> int
    decreases start,
{
    if start <= 0 {
        start
    } else {
        let previous = start - 1;
        if spec_blocked(list, previous) || spec_effective_blank(
            list,
            decisions,
            previous,
            config.grouping.join_related,
        ) > 0 || !list.units@[previous].kind.spec_ordinary() {
            start
        } else {
            run_start(config, list, decisions, previous)
        }
    }
}

/// Whether `setup` initializes state that the control unit updates.
pub open spec fn initializes(config: Config, unit: Unit, setup: Unit) -> bool {
    let mode = config.grouping.self_fields;
    let provided = spec_outputs(setup.facts@);
    &&& config.grouping.expressions != Expressions::Strict
    &&& unit.facts.known
    &&& config.grouping.use_in != UseIn::Header
    &&& (spec_intersects(provided, unit.facts@.writes, mode) || spec_intersects(
        provided,
        unit.facts@.mutating_receivers,
        mode,
    ))
}

/// Whether `setup` freshly binds a place that the control unit updates.
pub open spec fn fresh_accumulator(config: Config, unit: Unit, setup: Unit) -> bool {
    let mode = config.grouping.self_fields;
    spec_intersects(setup.facts@.definitions, unit.facts@.writes, mode) || spec_intersects(
        setup.facts@.definitions,
        unit.facts@.mutating_receivers,
        mode,
    )
}

/// What a setup unit offers to later units: its outputs, and its receivers when
/// receiver-centred grouping is on.
pub open spec fn provided(config: Config, setup: Unit) -> Seq<PlaceView> {
    if config.grouping.same_receiver {
        spec_outputs(setup.facts@) + setup.facts@.receivers
    } else {
        spec_outputs(setup.facts@)
    }
}

/// Scanning setup backwards from before unit `candidate` down to `group_start`,
/// with the places still `needed`: the first accepted unit, the first unit of the
/// accumulator suffix, and whether an unknown effect stopped the scan.
pub open spec fn scan_setup(
    config: Config,
    list: UnitList,
    unit: Unit,
    group_start: int,
    candidate: int,
    needed: Seq<PlaceView>,
    accepted: int,
    accumulator: int,
) -> (int, int, bool)
    decreases candidate - group_start,
{
    if candidate <= group_start {
        (accepted, accumulator, false)
    } else {
        let c = candidate - 1;
        let setup = list.units@[c];
        if !setup.kind.spec_ordinary() {
            (accepted, accumulator, false)
        } else if !setup.facts.known {
            (accepted, accumulator, true)
        } else {
            let init = initializes(config, unit, setup);
            let next_accumulator = if init && c + 1 == accumulator && fresh_accumulator(config, unit, setup) {
                c
            } else {
                accumulator
            };
            if !unit.facts.known && !init {
                (accepted, next_accumulator, true)
            } else if !init && !spec_intersects(provided(config, setup), needed, config.grouping.self_fields) {
                (accepted, next_accumulator, false)
            } else {
                scan_setup(
                    config,
                    list,
                    unit,
                    group_start,
                    c,
                    needed + setup.facts@.reads,
                    c,
                    next_accumulator,
                )
            }
        }
    }
}

/// The start of the run of mandatory joins that ends just before unit `start`,
/// not reaching past `group_start`.
pub open spec fn atomic_start(decisions: Seq<Option<Decision>>, group_start: int, start: int) -> int
    decreases start - group_start,
{
    if start > group_start && mandatory_slot(decisions, start - 1) {
        atomic_start(decisions, group_start, start - 1)
    } else {
        start
    }
}

/// The smaller of two integers.
pub open spec fn least(a: int, b: int) -> int {
    if a < b {
        a
    } else {
        b
    }
}

/// The larger of two integers.
pub open spec fn most(a: int, b: int) -> int {
    if a > b {
        a
    } else {
        b
    }
}

/// The boundary at which a group of setup ending at unit `control` is split, given
/// where it starts, its accepted and accumulator suffixes and its mandatory suffix.
pub open spec fn split_boundary(
    config: Config,
    control: int,
    group_start: int,
    accepted: int,
    accumulator: int,
    atomic: int,
) -> Option<int> {
    let limit = config.grouping.max_before_control as int;
    let mandatory = control - atomic;
    let total = control - group_start;
    let related = control - accepted;
    let kept = match config.grouping.overflow {
        Overflow::WholeGroup => if related != total || total > limit {
            Some(most(least(control - accumulator, limit), mandatory))
        } else {
            None
        },
        Overflow::RelatedSuffix => Some(most(least(related, limit), mandatory)),
    };
    match kept {
        None => None,
        Some(k) => if k == 0 {
            Some(control - 1)
        } else if control - k > group_start {
            Some(control - k - 1)
        } else {
            None
        },
    }
}

/// Moves a boundary back to the start of the mandatory joins it falls in, not
/// past `group_start`.
pub open spec fn expand_boundary(decisions: Seq<Option<Decision>>, group_start: int, b: int) -> int
    decreases b - group_start,
{
    if mandatory_slot(decisions, b) && b > group_start {
        expand_boundary(decisions, group_start, b - 1)
    } else {
        b
    }
}

/// The separation that splits setup from the control unit it precedes.
pub open spec fn setup_decision(unit: Unit) -> Decision {
    Decision {
        blanks: 1,
        rule: Rule::ControlFlow,
        priority: 90,
        message: "separate excess or unrelated setup from this control-flow group",
        anchor: Some(unit.anchor),
    }
}

/// Whether the unit at `control` is left alone: it is no control-flow unit after
/// an ordinary one at an editable joined boundary, or an exemption applies.
pub open spec fn skips_control(
    config: Config,
    global_rules: RuleMask,
    list: UnitList,
    cohesive: Seq<bool>,
    decisions: Seq<Option<Decision>>,
    control: int,
) -> bool {
    let unit = list.units@[control];
    let gap = control - 1;
    let before = list.units@[gap];
    ||| unit.kind != UnitKind::Control
    ||| !before.kind.spec_ordinary()
    ||| !spec_enabled(global_rules, unit, Rule::ControlFlow)
    ||| spec_blocked(list, gap)
    ||| (config.control_flow.guard_chain == GuardChain::Allow && before.is_guard && unit.is_guard)
    ||| spec_effective_blank(list, decisions, gap, config.grouping.join_related) > 0
    ||| marked(cohesive, gap)
    ||| (config.control_flow.compact_cleanup && config.grouping.expressions != Expressions::Strict
        && unit.is_empty_loop && before.facts.known && (before.facts.writes@.len() > 0
        || before.facts.mutating_receivers@.len() > 0))
    ||| (!unit.facts.known && unit.facts.writes@.len() == 0 && unit.facts.mutating_receivers@.len() == 0
        && config.grouping.max_before_control != 0)
}

/// The boundary, if any, at which setup is separated from the control unit at `control`.
pub open spec fn control_split(
    config: Config,
    list: UnitList,
    decisions: Seq<Option<Decision>>,
    control: int,
) -> Option<int> {
    let unit = list.units@[control];
    let group_start = run_start(config, list, decisions, control - 1);
    let scan = scan_setup(
        config,
        list,
        unit,
        group_start,
        control,
        spec_control_inputs(unit.facts@, config.grouping.use_in),
        control,
        control,
    );
    if scan.2 && scan.0 == control && config.grouping.max_before_control != 0 {
        None
    } else {
        match split_boundary(
            config,
            control,
            group_start,
            scan.0,
            scan.1,
            atomic_start(decisions, group_start, control),
        ) {
            None => None,
            Some(b) => {
                let e = expand_boundary(decisions, group_start, b);
                if mandatory_slot(decisions, e) {
                    None
                } else {
                    Some(e)
                }
            },
        }
    }
}

/// The decisions after considering the control unit at `control`, and whether a
/// decision was accepted there.
pub open spec fn control_step(
    config: Config,
    global_rules: RuleMask,
    list: UnitList,
    cohesive: Seq<bool>,
    decisions: Seq<Option<Decision>>,
    control: int,
) -> (Seq<Option<Decision>>, bool) {
    if skips_control(config, global_rules, list, cohesive, decisions, control) {
        (decisions, false)
    } else {
        match control_split(config, list, decisions, control) {
            None => (decisions, false),
            Some(b) => {
                let decision = setup_decision(list.units@[control]);
                (
                    spec_put(global_rules, list, decisions, b, decision),
                    spec_accepts(global_rules, list, decisions, b, decision),
                )
            },
        }
    }
}

/// One pass over the control units from `control` on; the flag says whether any
/// decision was accepted in the pass.
pub open spec fn round_from(
    config: Config,
    global_rules: RuleMask,
    list: UnitList,
    cohesive: Seq<bool>,
    decisions: Seq<Option<Decision>>,
    control: int,
    changed: bool,
) -> (Seq<Option<Decision>>, bool)
    decreases list.units@.len() - control,
{
    if control >= list.units@.len() {
        (decisions, changed)
    } else {
        let step = control_step(config, global_rules, list, cohesive, decisions, control);
        round_from(config, global_rules, list, cohesive, step.0, control + 1, changed || step.1)
    }
}

/// Passes repeated from pass number `round` until one changes nothing, and at most
/// one more time than there are boundaries in all.
pub open spec fn rounds_from(
    config: Config,
    global_rules: RuleMask,
    list: UnitList,
    cohesive: Seq<bool>,
    decisions: Seq<Option<Decision>>,
    round: int,
) -> Seq<Option<Decision>>
    decreases list.gaps@.len() + 1 - round,
{
    let pass = round_from(config, global_rules, list, cohesive, decisions, 1, false);
    if !pass.1 || round >= list.gaps@.len() {
        pass.0
    } else {
        rounds_from(config, global_rules, list, cohesive, pass.0, round + 1)
    }
}

/// Considering one control unit strengthens the slots.
pub proof fn lemma_control_step_strengthens(
    config: Config,
    global_rules: RuleMask,
    list: UnitList,
    cohesive: Seq<bool>,
    decisions: Seq<Option<Decision>>,
    control: int,
)
    ensures
        strengthens(
            global_rules,
            list,
            decisions,
            control_step(config, global_rules, list, cohesive, decisions, control).0,
        ),
{
    match control_split(config, list, decisions, control) {
        Some(b) => lemma_put_strengthens(global_rules, list, decisions, b, setup_decision(list.units@[control])),
        None => {},
    }
}

/// A pass over the control units strengthens the slots.
pub proof fn lemma_round_strengthens(
    config: Config,
    global_rules: RuleMask,
    list: UnitList,
    cohesive: Seq<bool>,
    decisions: Seq<Option<Decision>>,
    control: int,
    changed: bool,
)
    ensures
        strengthens(
            global_rules,
            list,
            decisions,
            round_from(config, global_rules, list, cohesive, decisions, control, changed).0,
        ),
    decreases list.units@.len() - control,
{
    if control < list.units@.len() {
        let step = control_step(config, global_rules, list, cohesive, decisions, control);
        lemma_control_step_strengthens(config, global_rules, list, cohesive, decisions, control);
        lemma_round_strengthens(config, global_rules, list, cohesive, step.0, control + 1, changed || step.1);
        lemma_strengthens_trans(
            global_rules,
            list,
            decisions,
            step.0,
            round_from(config, global_rules, list, cohesive, step.0, control + 1, changed || step.1).0,
        );
    }
}

/// Repeated passes strengthen the slots.
pub proof fn lemma_rounds_strengthen(
    config: Config,
    global_rules: RuleMask,
    list: UnitList,
    cohesive: Seq<bool>,
    decisions: Seq<Option<Decision>>,
    round: int,
)
    ensures
        strengthens(
            global_rules,
            list,
            decisions,
            rounds_from(config, global_rules, list, cohesive, decisions, round),
        ),
    decreases list.gaps@.len() + 1 - round,
{
    let pass = round_from(config, global_rules, list, cohesive, decisions, 1, false);
    lemma_round_strengthens(config, global_rules, list, cohesive, decisions, 1, false);
    if pass.1 && round < list.gaps@.len() {
        lemma_rounds_strengthen(config, global_rules, list, cohesive, pass.0, round + 1);
        lemma_strengthens_trans(
            global_rules,
            list,
            decisions,
            pass.0,
            rounds_from(config, global_rules, list, cohesive, pass.0, round + 1),
        );
    }
}

/// Setup splitting leaves alone a slot that holds a decision of at least its
/// own priority.
pub proof fn lemma_rounds_keep(
    config: Config,
    global_rules: RuleMask,
    list: UnitList,
    cohesive: Seq<bool>,
    decisions: Seq<Option<Decision>>,
    round: int,
    i: int,
)
    requires
        0 <= i < decisions.len(),
        decisions[i] is Some,
        decisions[i]->Some_0.priority >= 90,
    ensures
        rounds_from(config, global_rules, list, cohesive, decisions, round)[i] == decisions[i],
    decreases list.gaps@.len() + 1 - round,
{
    let pass = round_from(config, global_rules, list, cohesive, decisions, 1, false);
    lemma_round_keeps(config, global_rules, list, cohesive, decisions, 1, false, i);
    lemma_round_strengthens(config, global_rules, list, cohesive, decisions, 1, false);
    if pass.1 && round < list.gaps@.len() {
        lemma_rounds_keep(config, global_rules, list, cohesive, pass.0, round + 1, i);
    }
}

/// One pass of setup splitting leaves alone a slot that holds a decision of at
/// least its own priority.
proof fn lemma_round_keeps(
    config: Config,
    global_rules: RuleMask,
    list: UnitList,
    cohesive: Seq<bool>,
    decisions: Seq<Option<Decision>>,
    control: int,
    changed: bool,
    i: int,
)
    requires
        0 <= i < decisions.len(),
        decisions[i] is Some,
        decisions[i]->Some_0.priority >= 90,
    ensures
        round_from(config, global_rules, list, cohesive, decisions, control, changed).0[i] == decisions[i],
    decreases list.units@.len() - control,
{
    if control < list.units@.len() {
        let step = control_step(config, global_rules, list, cohesive, decisions, control);
        lemma_control_step_strengthens(config, global_rules, list, cohesive, decisions, control);
        assert(step.0[i] == decisions[i]);
        lemma_round_keeps(config, global_rules, list, cohesive, step.0, control + 1, changed || step.1, i);
    }
}

/// Setup splitting keeps every slot asking for one blank line or joining a
/// result check.
pub proof fn lemma_rounds_one_blank(
    config: Config,
    global_rules: RuleMask,
    list: UnitList,
    cohesive: Seq<bool>,
    decisions: Seq<Option<Decision>>,
    round: int,
)
    requires
        slots_one_blank_or_check(decisions),
    ensures
        slots_one_blank_or_check(rounds_from(config, global_rules, list, cohesive, decisions, round)),
    decreases list.gaps@.len() + 1 - round,
{
    let pass = round_from(config, global_rules, list, cohesive, decisions, 1, false);
    lemma_round_one_blank(config, global_rules, list, cohesive, decisions, 1, false);
    if pass.1 && round < list.gaps@.len() {
        lemma_rounds_one_blank(config, global_rules, list, cohesive, pass.0, round + 1);
    }
}

/// One pass of setup splitting keeps every slot asking for one blank line or
/// joining a result check.
proof fn lemma_round_one_blank(
    config: Config,
    global_rules: RuleMask,
    list: UnitList,
    cohesive: Seq<bool>,
    decisions: Seq<Option<Decision>>,
    control: int,
    changed: bool,
)
    requires
        slots_one_blank_or_check(decisions),
    ensures
        slots_one_blank_or_check(round_from(config, global_rules, list, cohesive, decisions, control, changed).0),
    decreases list.units@.len() - control,
{
    if control < list.units@.len() {
        let step = control_step(config, global_rules, list, cohesive, decisions, control);
        assert(slots_one_blank_or_check(step.0));
        lemma_round_one_blank(config, global_rules, list, cohesive, step.0, control + 1, changed || step.1);
    }
}

/// Setup splitting keeps every slot asking for one blank line or joining.
pub proof fn lemma_rounds_one_blank_or_join(
    config: Config,
    global_rules: RuleMask,
    list: UnitList,
    cohesive: Seq<bool>,
    decisions: Seq<Option<Decision>>,
    round: int,
)
    requires
        slots_one_blank_or_join(decisions),
    ensures
        slots_one_blank_or_join(rounds_from(config, global_rules, list, cohesive, decisions, round)),
    decreases list.gaps@.len() + 1 - round,
{
    let pass = round_from(config, global_rules, list, cohesive, decisions, 1, false);
    lemma_round_one_blank_or_join(config, global_rules, list, cohesive, decisions, 1, false);
    if pass.1 && round < list.gaps@.len() {
        lemma_rounds_one_blank_or_join(config, global_rules, list, cohesive, pass.0, round + 1);
    }
}

/// One pass of setup splitting keeps every slot asking for one blank line or joining.
proof fn lemma_round_one_blank_or_join(
    config: Config,
    global_rules: RuleMask,
    list: UnitList,
    cohesive: Seq<bool>,
    decisions: Seq<Option<Decision>>,
    control: int,
    changed: bool,
)
    requires
        slots_one_blank_or_join(decisions),
    ensures
        slots_one_blank_or_join(round_from(config, global_rules, list, cohesive, decisions, control, changed).0),
    decreases list.units@.len() - control,
{
    if control < list.units@.len() {
        let step = control_step(config, global_rules, list, cohesive, decisions, control);
        assert(slots_one_blank_or_join(step.0));
        lemma_round_one_blank_or_join(config, global_rules, list, cohesive, step.0, control + 1, changed || step.1);
    }
}

/// Setup splitting leaves slot `i` without a rule other than its own.
pub proof fn lemma_rounds_rule_not(
    config: Config,
    global_rules: RuleMask,
    list: UnitList,
    cohesive: Seq<bool>,
    decisions: Seq<Option<Decision>>,
    round: int,
    i: int,
    r: Rule,
)
    requires
        r != Rule::ControlFlow,
        0 <= i < decisions.len(),
        no_rule_at(decisions, i, r),
    ensures
        no_rule_at(rounds_from(config, global_rules, list, cohesive, decisions, round), i, r),
    decreases list.gaps@.len() + 1 - round,
{
    let pass = round_from(config, global_rules, list, cohesive, decisions, 1, false);
    lemma_round_rule_not(config, global_rules, list, cohesive, decisions, 1, false, i, r);
    lemma_round_strengthens(config, global_rules, list, cohesive, decisions, 1, false);
    if pass.1 && round < list.gaps@.len() {
        lemma_rounds_rule_not(config, global_rules, list, cohesive, pass.0, round + 1, i, r);
    }
}

/// One pass of setup splitting leaves slot `i` without a rule other than its own.
proof fn lemma_round_rule_not(
    config: Config,
    global_rules: RuleMask,
    list: UnitList,
    cohesive: Seq<bool>,
    decisions: Seq<Option<Decision>>,
    control: int,
    changed: bool,
    i: int,
    r: Rule,
)
    requires
        r != Rule::ControlFlow,
        0 <= i < decisions.len(),
        no_rule_at(decisions, i, r),
    ensures
        no_rule_at(round_from(config, global_rules, list, cohesive, decisions, control, changed).0, i, r),
    decreases list.units@.len() - control,
{
    if control < list.units@.len() {
        let step = control_step(config, global_rules, list, cohesive, decisions, control);
        lemma_control_step_strengthens(config, global_rules, list, cohesive, decisions, control);
        assert(no_rule_at(step.0, i, r));
        lemma_round_rule_not(config, global_rules, list, cohesive, step.0, control + 1, changed || step.1, i, r);
    }
}

/// Whether the decision at boundary `i` is a mandatory join.
fn mandatory_at(decisions: &Vec<Option<Decision>>, i: usize) -> (mandatory: bool)
    ensures
        mandatory == mandatory_slot(decisions@, i as int),
{
    if i < decisions.len() {
        if let Some(d) = &decisions[i] {
            return mandatory_join(d);
        }
    }
    false
}

/// Whether the cohesive marks cover gap `i`.
fn is_cohesive(cohesive: &Vec<bool>, i: usize) -> (covered: bool)
    ensures
        covered == marked(cohesive@, i as int),
{
    i < cohesive.len() && cohesive[i]
}

/// Appends copies of `extra` to `places`.
fn extend_places(places: &mut Vec<Place>, extra: &Vec<Place>)
    ensures
        places_view(final(places)@) == places_view(old(places)@) + places_view(extra@),
{
    let ghost head = places@;
    let mut copy = clone_places(extra);
    let ghost tail = copy@;
    places.append(&mut copy);
    proof {
        assert(places@ =~= head + tail);
        assert(places_view(places@) =~= places_view(head) + places_view(tail));
    }
}

/// The smaller of two counts.
fn min(a: usize, b: usize) -> (m: usize)
    ensures
        m == least(a as int, b as int),
{
    if a < b {
        a
    } else {
        b
    }
}

/// The larger of two counts.
fn max(a: usize, b: usize) -> (m: usize)
    ensures
        m == most(a as int, b as int),
{
    if a > b {
        a
    } else {
        b
    }
}

/// Walks back from unit `start` over adjacent, editable ordinary units.
fn find_run_start(config: &Config, list: &UnitList, decisions: &Vec<Option<Decision>>, start: usize) -> (first: usize)
    requires
        start < list.units@.len(),
    ensures
        first == run_start(*config, *list, decisions@, start as int),
        first <= start,
{
    let mut first = start;
    while first > 0
        invariant
            first <= start < list.units@.len(),
            run_start(*config, *list, decisions@, first as int) == run_start(
                *config,
                *list,
                decisions@,
                start as int,
            ),
        ensures
            run_start(*config, *list, decisions@, first as int) == first as int,
        decreases first,
    {
        let previous = first - 1;
        if blocked(list, previous) || effective_blank(list, decisions, previous, config.grouping.join_related) > 0
            || !list.units[previous].kind.ordinary() {
            break ;
        }
        first = previous;
    }
    first
}

/// Scans setup backwards from the control unit at `control` to `group_start`.
#[verifier::spinoff_prover]
#[verifier::rlimit(40)]
fn scan(config: &Config, list: &UnitList, control: usize, group_start: usize) -> (found: (usize, usize, bool))
    requires
        group_start <= control < list.units@.len(),
    ensures
        (found.0 as int, found.1 as int, found.2) == scan_setup(
            *config,
            *list,
            list.units@[control as int],
            group_start as int,
            control as int,
            spec_control_inputs(list.units@[control as int].facts@, config.grouping.use_in),
            control as int,
            control as int,
        ),
        group_start <= found.0 <= control,
        group_start <= found.1 <= control,
{
    let unit = &list.units[control];
    let mode = config.grouping.self_fields;
    let mut needed = control_inputs(&unit.facts, config.grouping.use_in);
    let mut accepted_start = control;
    let mut accumulator_start = control;
    let mut unknown = false;
    let mut done = false;
    let mut candidate = control;
    let ghost result = scan_setup(
        *config,
        *list,
        *unit,
        group_start as int,
        control as int,
        places_view(needed@),
        control as int,
        control as int,
    );
    while candidate > group_start && !done
        invariant
            group_start <= candidate <= control < list.units@.len(),
            group_start <= accepted_start <= control,
            group_start <= accumulator_start <= control,
            *unit == list.units@[control as int],
            mode == config.grouping.self_fields,
            done ==> (accepted_start as int, accumulator_start as int, unknown) == result,
            !done ==> !unknown && scan_setup(
                *config,
                *list,
                *unit,
                group_start as int,
                candidate as int,
                places_view(needed@),
                accepted_start as int,
                accumulator_start as int,
            ) == result,
        decreases candidate,
    {
        candidate = candidate - 1;
        let setup = &list.units[candidate];
        if !setup.kind.ordinary() {
            done = true;
        } else if !setup.facts.known {
            unknown = true;
            done = true;
        } else {
            let mut provided = outputs(&setup.facts);
            // Initializing state that the control body updates is setup even
            // when the update is nested or follows another statement. Only
            // affirmative non-deferred mutation facts extend the read scope;
            // a later read or shared receiver alone is not enough.
            let initializes_updated_state = config.grouping.expressions != Expressions::Strict
                && unit.facts.known && config.grouping.use_in != UseIn::Header && (intersects(
                &provided,
                &unit.facts.writes,
                mode,
            ) || intersects(&provided, &unit.facts.mutating_receivers, mode));
            // A bounded suffix of fresh accumulators belongs to the loop
            // that fills it, even when earlier bindings form a larger group.
            // Mutation operations alone are not fresh initializations.
            if initializes_updated_state && candidate + 1 == accumulator_start && (intersects(
                &setup.facts.definitions,
                &unit.facts.writes,
                mode,
            ) || intersects(&setup.facts.definitions, &unit.facts.mutating_receivers, mode)) {
                accumulator_start = candidate;
            }
            if config.grouping.same_receiver {
                // Receiver-centred setup is a grouping heuristic, not a
                // claim that the called method mutates its receiver.
                extend_places(&mut provided, &setup.facts.receivers);
            }
            // Unknown effects cannot prove a read relationship, but do not
            // invalidate an independently resolved non-deferred mutation.
            if !unit.facts.known && !initializes_updated_state {
                unknown = true;
                done = true;
            } else if !initializes_updated_state && !intersects(&provided, &needed, mode) {
                done = true;
            } else {
                extend_places(&mut needed, &setup.facts.reads);
                accepted_start = candidate;
            }
        }
    }
    (accepted_start, accumulator_start, unknown)
}

/// Walks back from unit `start` over the mandatory joins before it, not past
/// `group_start`.
fn find_atomic_start(decisions: &Vec<Option<Decision>>, group_start: usize, start: usize) -> (first: usize)
    requires
        group_start <= start,
    ensures
        first == atomic_start(decisions@, group_start as int, start as int),
        group_start <= first <= start,
{
    let mut first = start;
    while first > group_start && mandatory_at(decisions, first - 1)
        invariant
            group_start <= first <= start,
            atomic_start(decisions@, group_start as int, first as int) == atomic_start(
                decisions@,
                group_start as int,
                start as int,
            ),
        decreases first,
    {
        first = first - 1;
    }
    first
}

/// Where the group of setup before the control unit at `control` is split.
fn find_split(
    config: &Config,
    control: usize,
    group_start: usize,
    accepted: usize,
    accumulator: usize,
    atomic: usize,
) -> (boundary: Option<usize>)
    requires
        group_start <= accepted <= control,
        group_start <= accumulator <= control,
        group_start <= atomic <= control,
        1 <= control,
    ensures
        match boundary {
            Some(b) => split_boundary(
                *config,
                control as int,
                group_start as int,
                accepted as int,
                accumulator as int,
                atomic as int,
            ) == Some(b as int),
            None => split_boundary(
                *config,
                control as int,
                group_start as int,
                accepted as int,
                accumulator as int,
                atomic as int,
            ) is None,
        },
{
    let limit = config.grouping.max_before_control;
    let gap = control - 1;
    let mandatory = control - atomic;
    let total = control - group_start;
    let related = control - accepted;
    let kept = match config.grouping.overflow {
        Overflow::WholeGroup => {
            if related != total || total > limit {
                Some(max(min(control - accumulator, limit), mandatory))
            } else {
                None
            }
        },
        Overflow::RelatedSuffix => Some(max(min(related, limit), mandatory)),
    };
    match kept {
        None => None,
        Some(k) => {
            if k == 0 {
                Some(gap)
            } else if k <= control && control - k > group_start {
                Some(control - k - 1)
            } else {
                None
            }
        },
    }
}

/// Moves boundary `b` back to the start of the mandatory joins it falls in.
fn expand(decisions: &Vec<Option<Decision>>, group_start: usize, b: usize) -> (first: usize)
    ensures
        first == expand_boundary(decisions@, group_start as int, b as int),
{
    let mut boundary = b;
    while mandatory_at(decisions, boundary) && boundary > group_start
        invariant
            expand_boundary(decisions@, group_start as int, boundary as int) == expand_boundary(
                decisions@,
                group_start as int,
                b as int,
            ),
        decreases boundary,
    {
        boundary = boundary - 1;
    }
    boundary
}

/// Considers the control unit at `control`, separating excess or unrelated setup
/// from it; says whether a decision was accepted.
#[verifier::spinoff_prover]
#[verifier::rlimit(40)]
fn step(
    config: &Config,
    global_rules: RuleMask,
    list: &UnitList,
    cohesive: &Vec<bool>,
    decisions: &mut Vec<Option<Decision>>,
    control: usize,
    initial: Ghost<Seq<Option<Decision>>>,
) -> (accepted: bool)
    requires
        1 <= control < list.units@.len(),
        strengthens(global_rules, *list, initial@, old(decisions)@),
    ensures
        strengthens(global_rules, *list, initial@, final(decisions)@),
        (final(decisions)@, accepted) == control_step(
            *config,
            global_rules,
            *list,
            cohesive@,
            old(decisions)@,
            control as int,
        ),
{
    let unit = &list.units[control];
    let gap = control - 1;
    let gap_unit = &list.units[gap];
    if unit.kind != UnitKind::Control || !gap_unit.kind.ordinary() || !enabled(global_rules, unit, Rule::ControlFlow)
        || blocked(list, gap) || guard_pair(config, gap_unit, unit) || effective_blank(
        list,
        decisions,
        gap,
        config.grouping.join_related,
    ) > 0 || is_cohesive(cohesive, gap) {
        return false;
    }
    if config.control_flow.compact_cleanup && config.grouping.expressions != Expressions::Strict
        && unit.is_empty_loop && gap_unit.facts.known && (gap_unit.facts.writes.len() > 0
        || gap_unit.facts.mutating_receivers.len() > 0) {
        return false;
    }
    if !unit.facts.known && unit.facts.writes.len() == 0 && unit.facts.mutating_receivers.len() == 0
        && config.grouping.max_before_control != 0 {
        return false;
    }
    let group_start = find_run_start(config, list, decisions, gap);
    let (accepted_start, accumulator_start, unknown) = scan(config, list, control, group_start);
    if unknown && accepted_start == control && config.grouping.max_before_control != 0 {
        return false;
    }
    // A mandatory producer/check pair is indivisible, not an exemption
    // for every unrelated statement that happens to precede it.
    let atomic = find_atomic_start(decisions, group_start, control);
    let boundary = find_split(config, control, group_start, accepted_start, accumulator_start, atomic);
    match boundary {
        None => false,
        Some(found) => {
            // Expand the retained suffix backwards to the start of a
            // joined component; never split a mandatory pair in its middle.
            let boundary = expand(decisions, group_start, found);
            if mandatory_at(decisions, boundary) {
                return false;
            }
            let mut decision = separate(
                Rule::ControlFlow,
                90,
                "separate excess or unrelated setup from this control-flow group",
            );
            decision.anchor = Some(unit.anchor);
            let ghost before = decisions@;
            let accepted = put(global_rules, list, decisions, boundary, decision);
            proof {
                lemma_put_strengthens(global_rules, *list, before, boundary as int, decision);
                lemma_strengthens_trans(global_rules, *list, initial@, before, decisions@);
            }
            accepted
        },
    }
}

/// Separates ordinary setup that exceeds `max_before_control`, or is unrelated to
/// the control-flow unit that follows it, from that unit. Passes are repeated
/// until one changes nothing, so optional joins can strengthen into separators.
///
/// Every decision it leaves is at an editable boundary whose following unit
/// enables the decision's rule, and replaces only a lower-priority decision.
pub fn apply(
    config: &Config,
    global_rules: RuleMask,
    list: &UnitList,
    cohesive: &Vec<bool>,
    decisions: &mut Vec<Option<Decision>>,
)
    ensures
        strengthens(global_rules, *list, old(decisions)@, final(decisions)@),
        final(decisions)@ == rounds_from(*config, global_rules, *list, cohesive@, old(decisions)@, 0),
{
    let ghost initial = decisions@;
    let ghost result = rounds_from(*config, global_rules, *list, cohesive@, initial, 0);
    // Monotone closure: optional joins can strengthen into required separators.
    // Reconsider affected groups before exposing edits, not on a later fix pass.
    let mut round: usize = 0;
    loop
        invariant_except_break
            rounds_from(*config, global_rules, *list, cohesive@, decisions@, round as int) == result,
        invariant
            round <= list.gaps@.len(),
            strengthens(global_rules, *list, initial, decisions@),
        ensures
            strengthens(global_rules, *list, initial, decisions@),
            decisions@ == result,
        decreases list.gaps@.len() - round,
    {
        let ghost pass_start = decisions@;
        let mut changed = false;
        let mut control: usize = 1;
        while control < list.units.len()
            invariant
                1 <= control,
                strengthens(global_rules, *list, initial, decisions@),
                round_from(*config, global_rules, *list, cohesive@, decisions@, control as int, changed)
                    == round_from(*config, global_rules, *list, cohesive@, pass_start, 1, false),
            decreases list.units@.len() - control,
        {
            let accepted = step(config, global_rules, list, cohesive, decisions, control, Ghost(initial));
            changed = changed || accepted;
            control = control + 1;
        }
        if !changed || round == list.gaps.len() {
            break ;
        }
        round = round + 1;
    }
}

} // verus!
