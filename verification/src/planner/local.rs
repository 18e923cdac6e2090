//! Mandatory joins and group-independent spacing constraints.
use vstd::prelude::*;

use super::decisions::{
    blocked, enabled, join, lemma_put_strengthens, lemma_strengthens_trans, optional_join, put, separate,
    spec_blocked, spec_enabled, spec_put, strengthens, Decision,
};
use super::{count_line_feeds, line_feed_count};
use crate::slices::char_range;
use crate::syntax::comments::slice_of;
use vstd::utf8::encode_utf8;
use super::guard_pair;
use crate::config::{Bindings, Config, Expressions, GuardChain, ImmediateCheck, Separation, Tail};
use crate::model::{declaration, ItemKind, Rule, RuleMask, UnitKind, UnitList};
use crate::model::{places_view, Place, PlaceView, Unit};
use crate::relations::{
    contains_place, direct_producer, intersects, relationship, same_place, spec_direct_producer,
    spec_intersects, spec_relationship, Relationship,
};

verus! {

/// Whether the cohesive marks cover gap `i`.
fn is_cohesive(cohesive: &Vec<bool>, i: usize) -> (marked: bool)
    ensures
        marked == (i < cohesive@.len() && cohesive@[i as int]),
{
    i < cohesive.len() && cohesive[i]
}

/// Offers a decision and keeps the strengthening invariant relative to `initial`.
fn offer(
    global_rules: RuleMask,
    list: &UnitList,
    decisions: &mut Vec<Option<Decision>>,
    i: usize,
    decision: Decision,
    initial: Ghost<Seq<Option<Decision>>>,
) -> (accepted: bool)
    requires
        strengthens(global_rules, *list, initial@, old(decisions)@),
    ensures
        strengthens(global_rules, *list, initial@, final(decisions)@),
        final(decisions)@.len() == old(decisions)@.len(),
        final(decisions)@ == spec_put(global_rules, *list, old(decisions)@, i as int, decision),
        accepted ==> final(decisions)@ != old(decisions)@ || old(decisions)@[i as int] == Some(decision),
{
    let ghost before = decisions@;
    let accepted = put(global_rules, list, decisions, i, decision);
    proof {
        lemma_put_strengthens(global_rules, *list, before, i as int, decision);
        lemma_strengthens_trans(global_rules, *list, initial@, before, decisions@);
    }
    accepted
}

/// Whether an item kind is a compact declaration of some family.
fn is_declaration(kind: ItemKind) -> (found: bool)
    ensures
        found == declaration(kind),
{
    match kind {
        ItemKind::Compact | ItemKind::Import | ItemKind::Constant | ItemKind::Module | ItemKind::Alias => true,
        _ => false,
    }
}

/// Whether a unit writes or mutably borrows a receiver.
pub open spec fn spec_mutates(unit: Unit) -> bool {
    unit.facts.writes@.len() > 0 || unit.facts.mutating_receivers@.len() > 0
}

/// Whether a unit writes or mutably borrows a receiver.
fn mutates(unit: &crate::model::Unit) -> (m: bool)
    ensures
        m == spec_mutates(*unit),
{
    unit.facts.writes.len() > 0 || unit.facts.mutating_receivers.len() > 0
}

/// Offers each decision of a sequence at boundary `i`, in order.
pub open spec fn put_all(
    global_rules: RuleMask,
    list: UnitList,
    decisions: Seq<Option<Decision>>,
    i: int,
    offers: Seq<Decision>,
) -> Seq<Option<Decision>>
    decreases offers.len(),
{
    if offers.len() == 0 {
        decisions
    } else {
        spec_put(global_rules, list, put_all(global_rules, list, decisions, i, offers.drop_last()), i, offers.last())
    }
}

/// Offers at each of the first `n` boundaries, in order, what `offers` gives for it.
pub open spec fn offer_pass(
    global_rules: RuleMask,
    list: UnitList,
    decisions: Seq<Option<Decision>>,
    offers: spec_fn(int) -> Seq<Decision>,
    n: int,
) -> Seq<Option<Decision>>
    decreases n,
{
    if n <= 0 {
        decisions
    } else {
        put_all(global_rules, list, offer_pass(global_rules, list, decisions, offers, n - 1), n - 1, offers(n - 1))
    }
}

/// The mandatory join of an immediate Result/Option check with its producer,
/// when the binding before boundary `i` produces what the unit after it checks.
pub open spec fn result_check_offers(config: Config, global_rules: RuleMask, list: UnitList, i: int) -> Seq<
    Decision,
> {
    if i + 1 < list.units@.len() && !spec_blocked(list, i) && list.gaps@[i].joinable {
        let a = list.units@[i];
        let b = list.units@[i + 1];
        let checked = match b.facts.check_of {
            Some(c) => places_view(a.facts.definitions@).contains(c@),
            None => false,
        };
        if config.error_handling.immediate_result_option_check == ImmediateCheck::Join && a.kind
            == UnitKind::Let && b.facts.known && checked && spec_enabled(global_rules, b, Rule::ResultCheck) {
            seq![
                Decision {
                    blanks: 0,
                    rule: Rule::ResultCheck,
                    priority: 100,
                    message: "keep this Result/Option producer and its immediate check together",
                    anchor: None,
                },
            ]
        } else {
            Seq::empty()
        }
    } else {
        Seq::empty()
    }
}

/// A request for one blank line.
pub open spec fn spec_separate(rule: Rule, priority: u8, message: &'static str) -> Decision {
    Decision { blanks: 1, rule, priority, message, anchor: None }
}

/// Whether the cohesive marks cover boundary `i`.
pub open spec fn marked(cohesive: Seq<bool>, i: int) -> bool {
    0 <= i < cohesive.len() && cohesive[i]
}

/// The separation that item kinds require at a boundary between items.
pub open spec fn item_offers(config: Config, a: Unit, b: Unit) -> Seq<Decision> {
    let function = a.kind == UnitKind::Item(ItemKind::Function) || b.kind == UnitKind::Item(ItemKind::Function);
    let major = a.kind == UnitKind::Item(ItemKind::Major) || b.kind == UnitKind::Item(ItemKind::Major);
    let compact = match (a.kind, b.kind) {
        (UnitKind::Item(x), UnitKind::Item(y)) => declaration(x) && declaration(y),
        _ => false,
    };
    if (function && config.items.functions == Separation::Separate) || (major && config.items.major_items
        == Separation::Separate) || (compact && (a.kind != b.kind || !config.items.compact_declarations)) {
        seq![spec_separate(Rule::ItemSpacing, 60, "separate these item/declaration groups")]
    } else {
        Seq::empty()
    }
}

/// The separation of a block's final exit or value from the phase before it.
pub open spec fn exit_offers(config: Config, list: UnitList, cohesive: Seq<bool>, i: int) -> Seq<Decision> {
    let a = list.units@[i];
    let b = list.units@[i + 1];
    let mode = config.grouping.self_fields;
    let compact_policy = config.grouping.expressions != Expressions::Strict;
    let cleanup_exit = compact_policy && config.control_flow.compact_cleanup && (a.is_empty_loop || (
    a.kind.spec_ordinary() && spec_mutates(a))) && a.facts.known && b.is_bare_return && config.exits.tail
        != Tail::AlwaysSeparate;
    let attached_exit = compact_policy && config.exits.attached_loop_exit && b.is_loop_exit && a.facts.known
        && spec_mutates(a);
    let long = list.executable_count > config.exits.short_block_max_statements;
    let completion = b.facts.known && b.facts.reads@.len() == 0 && !b.is_loop_exit && !b.is_bare_return;
    let cached_exit = compact_policy && config.grouping.shared_inputs && a.kind == UnitKind::Assignment
        && b.facts.known && spec_intersects(places_view(a.facts.reads@), places_view(b.facts.reads@), mode);
    let guard_continuation = compact_policy && a.is_guard && config.control_flow.guard_chain == GuardChain::Allow;
    let guard_exit = guard_continuation && (b.kind == UnitKind::Exit || b.is_tail) && config.exits.tail
        == Tail::Smart;
    let producer = spec_direct_producer(a.facts@, b.facts@, config.grouping);
    let exit = b.kind == UnitKind::Exit && !cleanup_exit && !attached_exit && match config.exits.tail {
        Tail::AlwaysSeparate => true,
        Tail::Preserve => false,
        Tail::Smart => long && !completion && !cached_exit && !guard_exit && !producer,
    };
    let tail = b.is_tail && !cleanup_exit && !attached_exit && match config.exits.tail {
        Tail::AlwaysSeparate => true,
        Tail::Preserve => false,
        Tail::Smart => long && !completion && !cached_exit && !guard_exit && !marked(cohesive, i) && !producer,
    };
    if exit || tail {
        seq![spec_separate(Rule::Exit, 80, "separate the block's final exit or value from the preceding phase")]
    } else {
        Seq::empty()
    }
}

/// The separation after a standalone block that no continuation ties to what follows.
pub open spec fn after_block_offers(config: Config, list: UnitList, cohesive: Seq<bool>, i: int) -> Seq<Decision> {
    let a = list.units@[i];
    let b = list.units@[i + 1];
    let mode = config.grouping.self_fields;
    let compact_policy = config.grouping.expressions != Expressions::Strict;
    let guards = config.control_flow.guard_chain == GuardChain::Allow && a.is_guard && b.is_guard;
    let cleanup_exit = compact_policy && config.control_flow.compact_cleanup && (a.is_empty_loop || (
    a.kind.spec_ordinary() && spec_mutates(a))) && a.facts.known && b.is_bare_return && config.exits.tail
        != Tail::AlwaysSeparate;
    let completion = b.facts.known && b.facts.reads@.len() == 0 && !b.is_loop_exit && !b.is_bare_return;
    let completion_exit = compact_policy && completion && (b.kind == UnitKind::Exit || (b.is_tail && b.kind
        == UnitKind::Expression)) && config.exits.tail == Tail::Smart;
    let guard_continuation = compact_policy && a.is_guard && config.control_flow.guard_chain == GuardChain::Allow;
    let producer = spec_direct_producer(a.facts@, b.facts@, config.grouping);
    let data_continuation = compact_policy && config.control_flow.related_continuation && (b.kind.spec_ordinary()
        || b.kind == UnitKind::Control || b.kind == UnitKind::Exit) && (producer || (b.facts.known
        && config.grouping.shared_inputs && spec_intersects(
        places_view(a.facts.header_reads@),
        places_view(b.facts.reads@),
        mode,
    )));
    let receiver_continuation = compact_policy && config.control_flow.related_continuation
        && config.grouping.same_receiver && b.kind.spec_ordinary() && !b.is_tail && b.facts.known && ((
    a.facts.known && spec_intersects(places_view(a.facts.receivers@), places_view(b.facts.receivers@), mode))
        || (config.grouping.shared_inputs && spec_intersects(
        places_view(a.facts.header_reads@),
        places_view(b.facts.receivers@),
        mode,
    )));
    let drain_chain = compact_policy && config.control_flow.compact_cleanup && a.is_empty_loop && b.is_empty_loop
        && a.facts.known && b.facts.known;
    let unsafe_continuation = compact_policy && config.control_flow.related_continuation && a.kind
        == UnitKind::UnsafeBlock && (b.kind.spec_is_binding() || b.kind == UnitKind::UnsafeBlock
        || spec_relationship(a.facts@, b.facts@, config.grouping) == Relationship::Related);
    if a.kind.spec_ends_block() && !completion_exit && !guards && !guard_continuation && !unsafe_continuation
        && !data_continuation && !receiver_continuation && !drain_chain && !cleanup_exit && !marked(cohesive, i)
        && config.control_flow.after_block == Separation::Separate {
        seq![spec_separate(Rule::AfterBlock, 70, "start a new logical group after this standalone block")]
    } else {
        Seq::empty()
    }
}

/// The separation of binding or operation phases between ordinary units.
pub open spec fn phase_split_offers(config: Config, list: UnitList, cohesive: Seq<bool>, i: int) -> Seq<Decision> {
    let a = list.units@[i];
    let b = list.units@[i + 1];
    if b.kind == UnitKind::Control || b.kind == UnitKind::Exit || b.is_tail || !a.kind.spec_ordinary()
        || !b.kind.spec_ordinary() || marked(cohesive, i) {
        Seq::empty()
    } else if a.kind.spec_is_binding() && b.kind.spec_is_binding() {
        let required = match config.grouping.bindings {
            Bindings::Consecutive | Bindings::Preserve => false,
            Bindings::SameKind => a.kind != b.kind,
            Bindings::Related => spec_relationship(a.facts@, b.facts@, config.grouping) == Relationship::Unrelated,
        };
        if required {
            seq![spec_separate(Rule::Bindings, 30, "separate these binding phases")]
        } else {
            Seq::empty()
        }
    } else {
        let required = match config.grouping.expressions {
            Expressions::Preserve => false,
            Expressions::Strict => true,
            Expressions::Related => spec_relationship(a.facts@, b.facts@, config.grouping)
                == Relationship::Unrelated,
        };
        if required {
            seq![
                spec_separate(
                    if a.kind.spec_is_binding() || b.kind.spec_is_binding() {
                        Rule::Bindings
                    } else {
                        Rule::Expressions
                    },
                    30,
                    "separate these operation phases",
                ),
            ]
        } else {
            Seq::empty()
        }
    }
}

/// What the group-independent rules offer at boundary `i`, in order.
pub open spec fn phase_offers(config: Config, list: UnitList, cohesive: Seq<bool>, i: int) -> Seq<Decision> {
    if i + 1 >= list.units@.len() || spec_blocked(list, i) {
        Seq::empty()
    } else if list.units@[i].kind.spec_is_item() || list.units@[i + 1].kind.spec_is_item() {
        item_offers(config, list.units@[i], list.units@[i + 1])
    } else {
        exit_offers(config, list, cohesive, i) + after_block_offers(config, list, cohesive, i)
            + phase_split_offers(config, list, cohesive, i)
    }
}

/// The decisions after the mandatory result-check joins and the
/// group-independent rules, starting from `decisions`.
pub open spec fn local_decisions(
    config: Config,
    global_rules: RuleMask,
    list: UnitList,
    cohesive: Seq<bool>,
    decisions: Seq<Option<Decision>>,
) -> Seq<Option<Decision>> {
    let first = offer_pass(
        global_rules,
        list,
        decisions,
        |i: int| result_check_offers(config, global_rules, list, i),
        list.gaps@.len() as int,
    );
    offer_pass(global_rules, list, first, |i: int| phase_offers(config, list, cohesive, i), list.gaps@.len() as int)
}

/// Offering one more decision after a sequence offers it last.
proof fn lemma_put_all_push(
    global_rules: RuleMask,
    list: UnitList,
    decisions: Seq<Option<Decision>>,
    i: int,
    offers: Seq<Decision>,
    decision: Decision,
)
    ensures
        put_all(global_rules, list, decisions, i, offers.push(decision)) == spec_put(
            global_rules,
            list,
            put_all(global_rules, list, decisions, i, offers),
            i,
            decision,
        ),
{
    assert(offers.push(decision).drop_last() =~= offers);
}

/// Mandatory result-check joins, then the constraints that do not depend on group
/// membership: item separation, exits and tails, separation after standalone
/// blocks, and binding or expression phases.
///
/// Every decision it leaves is at an editable boundary whose following unit
/// enables the decision's rule, and replaces only a lower-priority decision.
pub fn apply(
    config: &Config,
    global_rules: RuleMask,
    list: &UnitList,
    cohesive: &Vec<bool>,
    decisions: &mut Vec<Option<Decision>>,
)
    ensures
        strengthens(global_rules, *list, old(decisions)@, final(decisions)@),
        final(decisions)@ == local_decisions(*config, global_rules, *list, cohesive@, old(decisions)@),
{
    let ghost initial = decisions@;
    let ghost checks = |j: int| result_check_offers(*config, global_rules, *list, j);
    let mut i: usize = 0;
    while i < list.gaps.len()
        invariant
            i <= list.gaps@.len(),
            strengthens(global_rules, *list, initial, decisions@),
            checks == (|j: int| result_check_offers(*config, global_rules, *list, j)),
            decisions@ == offer_pass(global_rules, *list, initial, checks, i as int),
        decreases list.gaps@.len() - i,
    {
        let ghost start = decisions@;
        proof {
            assert(put_all(global_rules, *list, start, i as int, Seq::empty()) == start);
        }
        if i + 1 < list.units.len() && !blocked(list, i) && list.gaps[i].joinable {
            let a = &list.units[i];
            let b = &list.units[i + 1];
            let checked = match &b.facts.check_of {
                Some(checked) => contains_place(&a.facts.definitions, checked),
                None => false,
            };
            let immediate = config.error_handling.immediate_result_option_check
                == ImmediateCheck::Join && a.kind == UnitKind::Let && b.facts.known && checked;
            if immediate && enabled(global_rules, b, Rule::ResultCheck) {
                offer(
                    global_rules,
                    list,
                    decisions,
                    i,
                    join(
                        Rule::ResultCheck,
                        "keep this Result/Option producer and its immediate check together",
                    ),
                    Ghost(initial),
                );
                proof {
                    lemma_put_all_push(global_rules, *list, start, i as int, Seq::empty(), checks(i as int)[0]);
                    assert(Seq::<Decision>::empty().push(checks(i as int)[0]) =~= checks(i as int));
                }
            }
        }
        proof {
            assert(decisions@ == put_all(global_rules, *list, start, i as int, checks(i as int)));
        }
        i = i + 1;
    }
    let ghost first = decisions@;
    proof {
        assert(first == offer_pass(global_rules, *list, initial, checks, list.gaps@.len() as int));
    }
    // Rules that do not depend on group membership. Later group splitting cannot
    // remove a mandatory join or weaken one of these phase boundaries.
    let ghost phases = |j: int| phase_offers(*config, *list, cohesive@, j);
    let mut i: usize = 0;
    while i < list.gaps.len()
        invariant
            i <= list.gaps@.len(),
            strengthens(global_rules, *list, initial, decisions@),
            phases == (|j: int| phase_offers(*config, *list, cohesive@, j)),
            decisions@ == offer_pass(global_rules, *list, first, phases, i as int),
        decreases list.gaps@.len() - i,
    {
        offer_phases(config, global_rules, list, cohesive, decisions, i, Ghost(initial));
        i = i + 1;
    }
    proof {
        assert(checks =~= (|j: int| result_check_offers(*config, global_rules, *list, j)));
        assert(phases =~= (|j: int| phase_offers(*config, *list, cohesive@, j)));
    }
}

/// Offering a sequence of decisions at a boundary strengthens the slots.
pub proof fn lemma_put_all_strengthens(
    global_rules: RuleMask,
    list: UnitList,
    decisions: Seq<Option<Decision>>,
    i: int,
    offers: Seq<Decision>,
)
    ensures
        strengthens(global_rules, list, decisions, put_all(global_rules, list, decisions, i, offers)),
    decreases offers.len(),
{
    if offers.len() > 0 {
        let earlier = put_all(global_rules, list, decisions, i, offers.drop_last());
        lemma_put_all_strengthens(global_rules, list, decisions, i, offers.drop_last());
        lemma_put_strengthens(global_rules, list, earlier, i, offers.last());
        lemma_strengthens_trans(
            global_rules,
            list,
            decisions,
            earlier,
            put_all(global_rules, list, decisions, i, offers),
        );
    }
}

/// A pass of offers over the boundaries strengthens the slots.
pub proof fn lemma_offer_pass_strengthens(
    global_rules: RuleMask,
    list: UnitList,
    decisions: Seq<Option<Decision>>,
    offers: spec_fn(int) -> Seq<Decision>,
    n: int,
)
    ensures
        strengthens(global_rules, list, decisions, offer_pass(global_rules, list, decisions, offers, n)),
    decreases n,
{
    if n > 0 {
        let earlier = offer_pass(global_rules, list, decisions, offers, n - 1);
        lemma_offer_pass_strengthens(global_rules, list, decisions, offers, n - 1);
        lemma_put_all_strengthens(global_rules, list, earlier, n - 1, offers(n - 1));
        lemma_strengthens_trans(
            global_rules,
            list,
            decisions,
            earlier,
            offer_pass(global_rules, list, decisions, offers, n),
        );
    }
}

/// The local phases strengthen the slots they start from.
pub proof fn lemma_local_decisions_strengthen(
    config: Config,
    global_rules: RuleMask,
    list: UnitList,
    cohesive: Seq<bool>,
    decisions: Seq<Option<Decision>>,
)
    ensures
        strengthens(global_rules, list, decisions, local_decisions(config, global_rules, list, cohesive, decisions)),
{
    let checks = |i: int| result_check_offers(config, global_rules, list, i);
    let phases = |i: int| phase_offers(config, list, cohesive, i);
    let n = list.gaps@.len() as int;
    let first = offer_pass(global_rules, list, decisions, checks, n);
    lemma_offer_pass_strengthens(global_rules, list, decisions, checks, n);
    lemma_offer_pass_strengthens(global_rules, list, first, phases, n);
    lemma_strengthens_trans(
        global_rules,
        list,
        decisions,
        first,
        offer_pass(global_rules, list, first, phases, n),
    );
}

/// Whether every decision that `offers` gives has at most priority `p`.
pub open spec fn offers_at_most(offers: spec_fn(int) -> Seq<Decision>, p: u8) -> bool {
    forall|j: int, k: int| 0 <= k < offers(j).len() ==> #[trigger] offers(j)[k].priority <= p
}

/// An offer leaves slot `i` alone when it is made elsewhere or slot `i` holds a
/// decision of at least its priority.
pub proof fn lemma_put_keeps(
    global_rules: RuleMask,
    list: UnitList,
    decisions: Seq<Option<Decision>>,
    j: int,
    decision: Decision,
    i: int,
)
    requires
        0 <= i < decisions.len(),
        j != i || (decisions[i] is Some && decisions[i]->Some_0.priority >= decision.priority),
    ensures
        spec_put(global_rules, list, decisions, j, decision)[i] == decisions[i],
{
}

/// Offers of at most priority `p` leave alone a slot that holds priority `p` or
/// more, or that lies at another boundary.
pub proof fn lemma_put_all_keeps(
    global_rules: RuleMask,
    list: UnitList,
    decisions: Seq<Option<Decision>>,
    j: int,
    offers: Seq<Decision>,
    i: int,
    p: u8,
)
    requires
        0 <= i < decisions.len(),
        forall|k: int| 0 <= k < offers.len() ==> #[trigger] offers[k].priority <= p,
        j != i || (decisions[i] is Some && decisions[i]->Some_0.priority >= p),
    ensures
        put_all(global_rules, list, decisions, j, offers)[i] == decisions[i],
    decreases offers.len(),
{
    if offers.len() > 0 {
        lemma_put_all_keeps(global_rules, list, decisions, j, offers.drop_last(), i, p);
        lemma_put_all_strengthens(global_rules, list, decisions, j, offers.drop_last());
        let earlier = put_all(global_rules, list, decisions, j, offers.drop_last());
        assert(offers.last().priority <= p);
        lemma_put_keeps(global_rules, list, earlier, j, offers.last(), i);
    }
}

/// A pass of offers of at most priority `p` leaves alone a slot that holds
/// priority `p` or more, and every slot it has not reached yet.
pub proof fn lemma_offer_pass_keeps(
    global_rules: RuleMask,
    list: UnitList,
    decisions: Seq<Option<Decision>>,
    offers: spec_fn(int) -> Seq<Decision>,
    n: int,
    i: int,
    p: u8,
)
    requires
        0 <= i < decisions.len(),
        offers_at_most(offers, p),
        n <= i || (decisions[i] is Some && decisions[i]->Some_0.priority >= p),
    ensures
        offer_pass(global_rules, list, decisions, offers, n)[i] == decisions[i],
    decreases n,
{
    if n > 0 {
        lemma_offer_pass_keeps(global_rules, list, decisions, offers, n - 1, i, p);
        lemma_offer_pass_strengthens(global_rules, list, decisions, offers, n - 1);
        let earlier = offer_pass(global_rules, list, decisions, offers, n - 1);
        assert forall|k: int| 0 <= k < offers(n - 1).len() implies #[trigger] offers(n - 1)[k].priority <= p by {
        }
        lemma_put_all_keeps(global_rules, list, earlier, n - 1, offers(n - 1), i, p);
    }
}

/// Once a pass has placed a decision of priority `p` or more at slot `i`, the
/// rest of the pass, offering at most priority `p`, keeps it.
pub proof fn lemma_offer_pass_keeps_from(
    global_rules: RuleMask,
    list: UnitList,
    decisions: Seq<Option<Decision>>,
    offers: spec_fn(int) -> Seq<Decision>,
    m: int,
    n: int,
    i: int,
    p: u8,
)
    requires
        0 <= m <= n,
        0 <= i < decisions.len(),
        offers_at_most(offers, p),
        offer_pass(global_rules, list, decisions, offers, m)[i] is Some,
        offer_pass(global_rules, list, decisions, offers, m)[i]->Some_0.priority >= p,
    ensures
        offer_pass(global_rules, list, decisions, offers, n)[i] == offer_pass(
            global_rules,
            list,
            decisions,
            offers,
            m,
        )[i],
    decreases n - m,
{
    if n > m {
        lemma_offer_pass_keeps_from(global_rules, list, decisions, offers, m, n - 1, i, p);
        lemma_offer_pass_strengthens(global_rules, list, decisions, offers, n - 1);
        let earlier = offer_pass(global_rules, list, decisions, offers, n - 1);
        assert forall|k: int| 0 <= k < offers(n - 1).len() implies #[trigger] offers(n - 1)[k].priority <= p by {
        }
        lemma_put_all_keeps(global_rules, list, earlier, n - 1, offers(n - 1), i, p);
    }
}

/// Once a pass has gone past slot `i`, its later offers, made at other
/// boundaries, leave slot `i` alone.
pub proof fn lemma_offer_pass_elsewhere(
    global_rules: RuleMask,
    list: UnitList,
    decisions: Seq<Option<Decision>>,
    offers: spec_fn(int) -> Seq<Decision>,
    m: int,
    n: int,
    i: int,
)
    requires
        0 <= i < m <= n,
        i < decisions.len(),
    ensures
        offer_pass(global_rules, list, decisions, offers, n)[i] == offer_pass(
            global_rules,
            list,
            decisions,
            offers,
            m,
        )[i],
    decreases n - m,
{
    if n > m {
        lemma_offer_pass_elsewhere(global_rules, list, decisions, offers, m, n - 1, i);
        lemma_offer_pass_strengthens(global_rules, list, decisions, offers, n - 1);
        let earlier = offer_pass(global_rules, list, decisions, offers, n - 1);
        lemma_put_all_keeps(global_rules, list, earlier, n - 1, offers(n - 1), i, 255);
    }
}

/// Whether slot `i` holds no decision of rule `r`.
pub open spec fn no_rule_at(decisions: Seq<Option<Decision>>, i: int, r: Rule) -> bool {
    decisions[i] is Some ==> decisions[i]->Some_0.rule != r
}

/// Offers at boundary `j` leave slot `i` without rule `r` when they are made
/// elsewhere or none of them has that rule.
pub proof fn lemma_put_all_rule_not(
    global_rules: RuleMask,
    list: UnitList,
    decisions: Seq<Option<Decision>>,
    j: int,
    offers: Seq<Decision>,
    i: int,
    r: Rule,
)
    requires
        0 <= i < decisions.len(),
        no_rule_at(decisions, i, r),
        j != i || forall|k: int| 0 <= k < offers.len() ==> (#[trigger] offers[k]).rule != r,
    ensures
        no_rule_at(put_all(global_rules, list, decisions, j, offers), i, r),
    decreases offers.len(),
{
    if offers.len() > 0 {
        lemma_put_all_rule_not(global_rules, list, decisions, j, offers.drop_last(), i, r);
        lemma_put_all_strengthens(global_rules, list, decisions, j, offers.drop_last());
        if j != i {
            let earlier = put_all(global_rules, list, decisions, j, offers.drop_last());
            lemma_put_keeps(global_rules, list, earlier, j, offers.last(), i);
        } else {
            assert(offers.last() == offers[offers.len() - 1]);
        }
    }
}

/// A pass whose offers at boundary `i` never have rule `r` leaves slot `i`
/// without rule `r`.
pub proof fn lemma_offer_pass_rule_not(
    global_rules: RuleMask,
    list: UnitList,
    decisions: Seq<Option<Decision>>,
    offers: spec_fn(int) -> Seq<Decision>,
    n: int,
    i: int,
    r: Rule,
)
    requires
        0 <= i < decisions.len(),
        no_rule_at(decisions, i, r),
        forall|k: int| 0 <= k < offers(i).len() ==> (#[trigger] offers(i)[k]).rule != r,
    ensures
        no_rule_at(offer_pass(global_rules, list, decisions, offers, n), i, r),
    decreases n,
{
    if n > 0 {
        lemma_offer_pass_rule_not(global_rules, list, decisions, offers, n - 1, i, r);
        lemma_offer_pass_strengthens(global_rules, list, decisions, offers, n - 1);
        let earlier = offer_pass(global_rules, list, decisions, offers, n - 1);
        lemma_put_all_rule_not(global_rules, list, earlier, n - 1, offers(n - 1), i, r);
    }
}

/// An unsafe block followed by a binding continues into it: under a policy that
/// is not strict and lets related units continue after a block, the
/// group-independent rules offer no separation after the block at that
/// boundary.
pub proof fn lemma_unsafe_block_continues(config: Config, list: UnitList, cohesive: Seq<bool>, i: int)
    requires
        0 <= i,
        i + 1 < list.units@.len(),
        list.units@[i].kind == UnitKind::UnsafeBlock,
        list.units@[i + 1].kind == UnitKind::Let || list.units@[i + 1].kind == UnitKind::Assignment,
        config.grouping.expressions != Expressions::Strict,
        config.control_flow.related_continuation,
    ensures
        forall|k: int|
            0 <= k < phase_offers(config, list, cohesive, i).len() ==> (#[trigger] phase_offers(
                config,
                list,
                cohesive,
                i,
            )[k]).rule != Rule::AfterBlock,
{
    let a = exit_offers(config, list, cohesive, i);
    let b = after_block_offers(config, list, cohesive, i);
    let c = phase_split_offers(config, list, cohesive, i);
    assert(b.len() == 0);
    if !spec_blocked(list, i) {
        assert(phase_offers(config, list, cohesive, i) == a + b + c);
        assert forall|k: int| 0 <= k < (a + b + c).len() implies (#[trigger] (a + b + c)[k]).rule
            != Rule::AfterBlock by {
            if k < a.len() {
                assert((a + b + c)[k] == a[k]);
            } else {
                assert((a + b + c)[k] == c[k - a.len() - b.len()]);
            }
        }
    }
}

/// Whether a decision asks for one blank line, or is a join of a result check.
pub open spec fn one_blank_or_check(decision: Decision) -> bool {
    decision.blanks == 1 || (decision.blanks == 0 && decision.rule == Rule::ResultCheck)
}

/// Whether every decided slot asks for one blank line or joins a result check.
pub open spec fn slots_one_blank_or_check(decisions: Seq<Option<Decision>>) -> bool {
    forall|i: int| 0 <= i < decisions.len() && #[trigger] decisions[i] is Some ==> one_blank_or_check(
        decisions[i]->Some_0,
    )
}

/// Offers that ask for one blank line or join a result check keep every slot so.
pub proof fn lemma_put_all_one_blank(
    global_rules: RuleMask,
    list: UnitList,
    decisions: Seq<Option<Decision>>,
    i: int,
    offers: Seq<Decision>,
)
    requires
        slots_one_blank_or_check(decisions),
        forall|k: int| 0 <= k < offers.len() ==> one_blank_or_check(#[trigger] offers[k]),
    ensures
        slots_one_blank_or_check(put_all(global_rules, list, decisions, i, offers)),
    decreases offers.len(),
{
    if offers.len() > 0 {
        lemma_put_all_one_blank(global_rules, list, decisions, i, offers.drop_last());
        assert(one_blank_or_check(offers.last()));
    }
}

/// A pass of such offers keeps every slot so.
pub proof fn lemma_offer_pass_one_blank(
    global_rules: RuleMask,
    list: UnitList,
    decisions: Seq<Option<Decision>>,
    offers: spec_fn(int) -> Seq<Decision>,
    n: int,
)
    requires
        slots_one_blank_or_check(decisions),
        forall|j: int, k: int| 0 <= k < offers(j).len() ==> one_blank_or_check(#[trigger] offers(j)[k]),
    ensures
        slots_one_blank_or_check(offer_pass(global_rules, list, decisions, offers, n)),
    decreases n,
{
    if n > 0 {
        lemma_offer_pass_one_blank(global_rules, list, decisions, offers, n - 1);
        let earlier = offer_pass(global_rules, list, decisions, offers, n - 1);
        assert forall|k: int| 0 <= k < offers(n - 1).len() implies one_blank_or_check(
            #[trigger] offers(n - 1)[k],
        ) by {
        }
        lemma_put_all_one_blank(global_rules, list, earlier, n - 1, offers(n - 1));
    }
}

/// Whether a decision asks for one blank line, or is a join: of a result check,
/// or an optional join of the lowest priority.
pub open spec fn one_blank_or_join(decision: Decision) -> bool {
    decision.blanks == 1 || (decision.blanks == 0 && (decision.rule == Rule::ResultCheck || decision.priority
        == 20))
}

/// Whether every decided slot asks for one blank line or is such a join.
pub open spec fn slots_one_blank_or_join(decisions: Seq<Option<Decision>>) -> bool {
    forall|i: int| 0 <= i < decisions.len() && #[trigger] decisions[i] is Some ==> one_blank_or_join(
        decisions[i]->Some_0,
    )
}

/// Offers that ask for one blank line or join keep every slot so.
pub proof fn lemma_put_all_one_blank_or_join(
    global_rules: RuleMask,
    list: UnitList,
    decisions: Seq<Option<Decision>>,
    i: int,
    offers: Seq<Decision>,
)
    requires
        slots_one_blank_or_join(decisions),
        forall|k: int| 0 <= k < offers.len() ==> one_blank_or_join(#[trigger] offers[k]),
    ensures
        slots_one_blank_or_join(put_all(global_rules, list, decisions, i, offers)),
    decreases offers.len(),
{
    if offers.len() > 0 {
        lemma_put_all_one_blank_or_join(global_rules, list, decisions, i, offers.drop_last());
        assert(one_blank_or_join(offers.last()));
    }
}

/// A pass of such offers keeps every slot so.
pub proof fn lemma_offer_pass_one_blank_or_join(
    global_rules: RuleMask,
    list: UnitList,
    decisions: Seq<Option<Decision>>,
    offers: spec_fn(int) -> Seq<Decision>,
    n: int,
)
    requires
        slots_one_blank_or_join(decisions),
        forall|j: int, k: int| 0 <= k < offers(j).len() ==> one_blank_or_join(#[trigger] offers(j)[k]),
    ensures
        slots_one_blank_or_join(offer_pass(global_rules, list, decisions, offers, n)),
    decreases n,
{
    if n > 0 {
        lemma_offer_pass_one_blank_or_join(global_rules, list, decisions, offers, n - 1);
        let earlier = offer_pass(global_rules, list, decisions, offers, n - 1);
        assert forall|k: int| 0 <= k < offers(n - 1).len() implies one_blank_or_join(
            #[trigger] offers(n - 1)[k],
        ) by {
        }
        lemma_put_all_one_blank_or_join(global_rules, list, earlier, n - 1, offers(n - 1));
    }
}

/// Offering `s` and then `t` at one boundary is offering `s + t`.
proof fn lemma_put_all_append(
    global_rules: RuleMask,
    list: UnitList,
    decisions: Seq<Option<Decision>>,
    i: int,
    s: Seq<Decision>,
    t: Seq<Decision>,
)
    ensures
        put_all(global_rules, list, decisions, i, s + t) == put_all(
            global_rules,
            list,
            put_all(global_rules, list, decisions, i, s),
            i,
            t,
        ),
    decreases t.len(),
{
    if t.len() == 0 {
        assert(s + t =~= s);
    } else {
        lemma_put_all_append(global_rules, list, decisions, i, s, t.drop_last());
        assert((s + t).drop_last() =~= s + t.drop_last());
        assert((s + t).last() == t.last());
    }
}

/// Offers `decision` when `condition` holds, as the one-element sequence it stands for.
fn offer_if(
    condition: bool,
    global_rules: RuleMask,
    list: &UnitList,
    decisions: &mut Vec<Option<Decision>>,
    i: usize,
    decision: Decision,
    initial: Ghost<Seq<Option<Decision>>>,
)
    requires
        strengthens(global_rules, *list, initial@, old(decisions)@),
    ensures
        strengthens(global_rules, *list, initial@, final(decisions)@),
        final(decisions)@ == put_all(
            global_rules,
            *list,
            old(decisions)@,
            i as int,
            if condition { seq![decision] } else { Seq::empty() },
        ),
{
    if condition {
        let ghost before = decisions@;
        offer(global_rules, list, decisions, i, decision, initial);
        proof {
            lemma_put_all_push(global_rules, *list, before, i as int, Seq::empty(), decision);
            assert(Seq::<Decision>::empty().push(decision) =~= seq![decision]);
        }
    }
}

/// Offers at boundary `i` what the group-independent rules require there.
#[verifier::spinoff_prover]
#[verifier::rlimit(50)]
fn offer_phases(
    config: &Config,
    global_rules: RuleMask,
    list: &UnitList,
    cohesive: &Vec<bool>,
    decisions: &mut Vec<Option<Decision>>,
    i: usize,
    initial: Ghost<Seq<Option<Decision>>>,
)
    requires
        strengthens(global_rules, *list, initial@, old(decisions)@),
    ensures
        strengthens(global_rules, *list, initial@, final(decisions)@),
        final(decisions)@ == put_all(
            global_rules,
            *list,
            old(decisions)@,
            i as int,
            phase_offers(*config, *list, cohesive@, i as int),
        ),
{
    let ghost start = decisions@;
    proof {
        assert(put_all(global_rules, *list, start, i as int, Seq::empty()) == start);
    }
    if blocked(list, i) {
        return ;
    }
    let count = list.units.len();
    assert(i + 1 < count);
    let a = &list.units[i];
    let b = &list.units[i + 1];
    let mode = config.grouping.self_fields;
    if a.kind.is_item() || b.kind.is_item() {
        let function = a.kind == UnitKind::Item(ItemKind::Function) || b.kind == UnitKind::Item(
            ItemKind::Function,
        );
        let major = a.kind == UnitKind::Item(ItemKind::Major) || b.kind == UnitKind::Item(
            ItemKind::Major,
        );
        let compact = match (a.kind, b.kind) {
            (UnitKind::Item(x), UnitKind::Item(y)) => is_declaration(x) && is_declaration(y),
            _ => false,
        };
        let required = (function && config.items.functions == Separation::Separate) || (major
            && config.items.major_items == Separation::Separate) || (compact && (a.kind != b.kind
            || !config.items.compact_declarations));
        offer_if(
            required,
            global_rules,
            list,
            decisions,
            i,
            separate(Rule::ItemSpacing, 60, "separate these item/declaration groups"),
            initial,
        );
        return ;
    }
    let compact_policy = config.grouping.expressions != Expressions::Strict;
    let cleanup_exit = compact_policy && config.control_flow.compact_cleanup && (a.is_empty_loop || (
    a.kind.ordinary() && mutates(a))) && a.facts.known && b.is_bare_return && config.exits.tail
        != Tail::AlwaysSeparate;
    let attached_exit = compact_policy && config.exits.attached_loop_exit && b.is_loop_exit
        && a.facts.known && mutates(a);
    let long = list.executable_count > config.exits.short_block_max_statements;
    // A completion acknowledgment has no local producer to look for. Empty
    // reads are meaningful only when extraction completed successfully.
    let completion = b.facts.known && b.facts.reads.len() == 0 && !b.is_loop_exit && !b.is_bare_return;
    let completion_exit = compact_policy && completion && (b.kind == UnitKind::Exit || (b.is_tail
        && b.kind == UnitKind::Expression)) && config.exits.tail == Tail::Smart;
    // Saving a value and then returning it is one phase. Resolved reads
    // remain affirmative evidence even when the destination is an alias
    // whose write target cannot be resolved.
    let cached_exit = compact_policy && config.grouping.shared_inputs && a.kind == UnitKind::Assignment
        && b.facts.known && intersects(&a.facts.reads, &b.facts.reads, mode);
    let guard_continuation = compact_policy && a.is_guard && config.control_flow.guard_chain
        == GuardChain::Allow;
    let guard_exit = guard_continuation && (b.kind == UnitKind::Exit || b.is_tail) && config.exits.tail
        == Tail::Smart;
    let producer = direct_producer(&a.facts, &b.facts, &config.grouping);
    let data_continuation = compact_policy && config.control_flow.related_continuation && (
    b.kind.ordinary() || b.kind == UnitKind::Control || b.kind == UnitKind::Exit) && (producer || (
    b.facts.known && config.grouping.shared_inputs && intersects(&a.facts.header_reads, &b.facts.reads, mode)));
    let exit = b.kind == UnitKind::Exit && !cleanup_exit && !attached_exit && match config.exits.tail {
        Tail::AlwaysSeparate => true,
        Tail::Preserve => false,
        Tail::Smart => long && !completion && !cached_exit && !guard_exit && !producer,
    };
    let tail = b.is_tail && !cleanup_exit && !attached_exit && match config.exits.tail {
        Tail::AlwaysSeparate => true,
        Tail::Preserve => false,
        Tail::Smart => long && !completion && !cached_exit && !guard_exit && !is_cohesive(cohesive, i)
            && !producer,
    };
    let ghost before_exit = decisions@;
    offer_if(
        exit || tail,
        global_rules,
        list,
        decisions,
        i,
        separate(Rule::Exit, 80, "separate the block's final exit or value from the preceding phase"),
        initial,
    );
    proof {
        assert(decisions@ == put_all(global_rules, *list, start, i as int, exit_offers(*config, *list, cohesive@, i as int)));
    }
    let receiver_continuation = compact_policy && config.control_flow.related_continuation
        && config.grouping.same_receiver && b.kind.ordinary() && !b.is_tail && b.facts.known && ((
    a.facts.known && intersects(&a.facts.receivers, &b.facts.receivers, mode))
    // A resolved header input is affirmative evidence even if an
    // unrelated macro or deferred operation makes the body unknown.
     || (config.grouping.shared_inputs && intersects(&a.facts.header_reads, &b.facts.receivers, mode)));
    let drain_chain = compact_policy && config.control_flow.compact_cleanup && a.is_empty_loop
        && b.is_empty_loop && a.facts.known && b.facts.known;
    let unsafe_continuation = compact_policy && config.control_flow.related_continuation && a.kind
        == UnitKind::UnsafeBlock && (b.kind.is_binding() || b.kind == UnitKind::UnsafeBlock
        || relationship(&a.facts, &b.facts, &config.grouping) == Relationship::Related);
    let guards = guard_pair(config, a, b);
    let after_block = a.kind.ends_block() && !completion_exit && !guards && !guard_continuation
        && !unsafe_continuation && !data_continuation && !receiver_continuation && !drain_chain
        && !cleanup_exit && !is_cohesive(cohesive, i) && config.control_flow.after_block
        == Separation::Separate;
    let ghost before_block = decisions@;
    offer_if(
        after_block,
        global_rules,
        list,
        decisions,
        i,
        separate(Rule::AfterBlock, 70, "start a new logical group after this standalone block"),
        initial,
    );
    proof {
        assert(decisions@ == put_all(global_rules, *list, before_block, i as int, after_block_offers(*config, *list, cohesive@, i as int)));
        lemma_put_all_append(global_rules, *list, start, i as int, exit_offers(*config, *list, cohesive@, i as int), after_block_offers(*config, *list, cohesive@, i as int));
    }
    let ghost before_split = decisions@;
    // Special constructs own their boundary, even when their specific rule
    // is disabled. A generic rule must not reproduce a suppressed rule.
    let special = b.kind == UnitKind::Control || b.kind == UnitKind::Exit || b.is_tail
        || !a.kind.ordinary() || !b.kind.ordinary() || is_cohesive(cohesive, i);
    if !special {
        if a.kind.is_binding() && b.kind.is_binding() {
            let required = match config.grouping.bindings {
                Bindings::Consecutive | Bindings::Preserve => false,
                Bindings::SameKind => a.kind != b.kind,
                Bindings::Related => relationship(&a.facts, &b.facts, &config.grouping)
                    == Relationship::Unrelated,
            };
            offer_if(
                required,
                global_rules,
                list,
                decisions,
                i,
                separate(Rule::Bindings, 30, "separate these binding phases"),
                initial,
            );
        } else {
            let required = match config.grouping.expressions {
                Expressions::Preserve => false,
                Expressions::Strict => true,
                Expressions::Related => relationship(&a.facts, &b.facts, &config.grouping)
                    == Relationship::Unrelated,
            };
            let rule = if a.kind.is_binding() || b.kind.is_binding() {
                Rule::Bindings
            } else {
                Rule::Expressions
            };
            offer_if(
                required,
                global_rules,
                list,
                decisions,
                i,
                separate(rule, 30, "separate these operation phases"),
                initial,
            );
        }
    }
    proof {
        assert(decisions@ == put_all(global_rules, *list, before_split, i as int, phase_split_offers(*config, *list, cohesive@, i as int)));
        lemma_put_all_append(
            global_rules,
            *list,
            start,
            i as int,
            exit_offers(*config, *list, cohesive@, i as int) + after_block_offers(*config, *list, cohesive@, i as int),
            phase_split_offers(*config, *list, cohesive@, i as int),
        );
    }
}

/// The request for a single blank line at boundary `i` when it holds more.
pub open spec fn layout_offers(list: UnitList, i: int) -> Seq<Decision> {
    if 0 <= i < list.gaps@.len() && list.gaps@[i].blank_lines > 1 {
        seq![spec_separate(Rule::Layout, 1, "use at most one blank line at this boundary")]
    } else {
        Seq::empty()
    }
}

/// Requests at most one blank line at every boundary that has more.
pub fn cap_blank_lines(
    global_rules: RuleMask,
    list: &UnitList,
    decisions: &mut Vec<Option<Decision>>,
)
    ensures
        strengthens(global_rules, *list, old(decisions)@, final(decisions)@),
        final(decisions)@ == offer_pass(
            global_rules,
            *list,
            old(decisions)@,
            |j: int| layout_offers(*list, j),
            list.gaps@.len() as int,
        ),
{
    let ghost initial = decisions@;
    let ghost layouts = |j: int| layout_offers(*list, j);
    let mut i: usize = 0;
    while i < list.gaps.len()
        invariant
            i <= list.gaps@.len(),
            strengthens(global_rules, *list, initial, decisions@),
            layouts == (|j: int| layout_offers(*list, j)),
            decisions@ == offer_pass(global_rules, *list, initial, layouts, i as int),
        decreases list.gaps@.len() - i,
    {
        offer_if(
            list.gaps[i].blank_lines > 1,
            global_rules,
            list,
            decisions,
            i,
            separate(Rule::Layout, 1, "use at most one blank line at this boundary"),
            Ghost(initial),
        );
        i = i + 1;
    }
    proof {
        assert(layouts =~= (|j: int| layout_offers(*list, j)));
    }
}

/// The optional joins only strengthen the slots.
pub proof fn lemma_normalized_strengthen(
    config: Config,
    bytes: Seq<u8>,
    global_rules: RuleMask,
    list: UnitList,
    decisions: Seq<Option<Decision>>,
)
    ensures
        strengthens(global_rules, list, decisions, normalized_decisions(config, bytes, global_rules, list, decisions)),
{
    if config.grouping.join_related {
        lemma_offer_pass_strengthens(
            global_rules,
            list,
            decisions,
            |i: int| normalize_offers(config, bytes, list, i),
            list.gaps@.len() as int,
        );
    } else {
        assert(strengthens(global_rules, list, decisions, decisions));
    }
}

/// Whether every decided slot holds a decision of priority `p` or more.
pub open spec fn slots_at_least(decisions: Seq<Option<Decision>>, p: u8) -> bool {
    forall|i: int| 0 <= i < decisions.len() && #[trigger] decisions[i] is Some ==> decisions[i]->Some_0.priority >= p
}

/// Offers of priority `p` or more keep every decided slot at priority `p` or more.
pub proof fn lemma_put_all_at_least(
    global_rules: RuleMask,
    list: UnitList,
    decisions: Seq<Option<Decision>>,
    i: int,
    offers: Seq<Decision>,
    p: u8,
)
    requires
        slots_at_least(decisions, p),
        forall|k: int| 0 <= k < offers.len() ==> #[trigger] offers[k].priority >= p,
    ensures
        slots_at_least(put_all(global_rules, list, decisions, i, offers), p),
    decreases offers.len(),
{
    if offers.len() > 0 {
        lemma_put_all_at_least(global_rules, list, decisions, i, offers.drop_last(), p);
        assert(offers.last().priority >= p);
    }
}

/// A pass of such offers keeps every decided slot so.
pub proof fn lemma_offer_pass_at_least(
    global_rules: RuleMask,
    list: UnitList,
    decisions: Seq<Option<Decision>>,
    offers: spec_fn(int) -> Seq<Decision>,
    n: int,
    p: u8,
)
    requires
        slots_at_least(decisions, p),
        forall|j: int, k: int| 0 <= k < offers(j).len() ==> #[trigger] offers(j)[k].priority >= p,
    ensures
        slots_at_least(offer_pass(global_rules, list, decisions, offers, n), p),
    decreases n,
{
    if n > 0 {
        lemma_offer_pass_at_least(global_rules, list, decisions, offers, n - 1, p);
        let earlier = offer_pass(global_rules, list, decisions, offers, n - 1);
        assert forall|k: int| 0 <= k < offers(n - 1).len() implies #[trigger] offers(n - 1)[k].priority >= p by {
        }
        lemma_put_all_at_least(global_rules, list, earlier, n - 1, offers(n - 1), p);
    }
}

/// Every decision that the mandatory joins and the group-independent rules leave,
/// starting from no decision, has priority 30 or more.
pub proof fn lemma_local_decisions_at_least(
    config: Config,
    global_rules: RuleMask,
    list: UnitList,
    cohesive: Seq<bool>,
)
    ensures
        slots_at_least(
            local_decisions(
                config,
                global_rules,
                list,
                cohesive,
                Seq::new(list.gaps@.len(), |_i: int| None::<Decision>),
            ),
            30,
        ),
{
    let n = list.gaps@.len() as int;
    let undecided = Seq::new(list.gaps@.len(), |_i: int| None::<Decision>);
    let checks = |j: int| result_check_offers(config, global_rules, list, j);
    let phases = |j: int| phase_offers(config, list, cohesive, j);
    assert(slots_at_least(undecided, 30));
    assert forall|j: int, k: int| 0 <= k < checks(j).len() implies #[trigger] checks(j)[k].priority >= 30 by {
    }
    lemma_offer_pass_at_least(global_rules, list, undecided, checks, n, 30);
    let first = offer_pass(global_rules, list, undecided, checks, n);
    assert forall|j: int, k: int| 0 <= k < phases(j).len() implies #[trigger] phases(j)[k].priority >= 30 by {
        let a = exit_offers(config, list, cohesive, j);
        let b = after_block_offers(config, list, cohesive, j);
        let c = phase_split_offers(config, list, cohesive, j);
        if !(j + 1 >= list.units@.len() || spec_blocked(list, j)) && !(list.units@[j].kind.spec_is_item()
            || list.units@[j + 1].kind.spec_is_item()) {
            assert(phases(j) == a + b + c);
            if k < a.len() {
                assert(phases(j)[k] == a[k]);
            } else if k < a.len() + b.len() {
                assert(phases(j)[k] == b[k - a.len()]);
            } else {
                assert(phases(j)[k] == c[k - a.len() - b.len()]);
            }
        }
    }
    lemma_offer_pass_at_least(global_rules, list, first, phases, n, 30);
}

/// The bytes of a unit's code, when its code range is a character range of `bytes`.
pub open spec fn code_text(bytes: Seq<u8>, unit: Unit) -> Option<Seq<u8>> {
    if char_range(bytes, unit.code_range.start as int, unit.code_range.end as int) {
        Some(bytes.subrange(unit.code_range.start as int, unit.code_range.end as int))
    } else {
        None
    }
}

/// The number of lines of a text: its line feeds, and one more for a last line
/// that no line feed ends.
pub open spec fn line_count(text: Seq<u8>) -> nat {
    if text.len() == 0 {
        0
    } else if text.last() == 10 {
        line_feed_count(text)
    } else {
        line_feed_count(text) + 1
    }
}

/// Whether a unit's code is readable from `bytes` and spans at most two lines.
pub open spec fn at_most_two_lines(bytes: Seq<u8>, unit: Unit) -> bool {
    code_text(bytes, unit) matches Some(text) && line_count(text) <= 2
}

/// Whether a unit's code is readable from `bytes` and holds no line feed.
pub open spec fn single_line(bytes: Seq<u8>, unit: Unit) -> bool {
    code_text(bytes, unit) matches Some(text) && line_feed_count(text) == 0
}

/// Whether a sequence of places holds at least two different places.
pub open spec fn several_places(places: Seq<PlaceView>) -> bool {
    exists|j: int, k: int| 0 <= j < k < places.len() && places[j] != places[k]
}

/// Two consecutive short `let` bindings, under a binding policy that lets
/// consecutive bindings share a phase.
pub open spec fn spec_short_setup(config: Config, bytes: Seq<u8>, a: Unit, b: Unit) -> bool {
    &&& a.kind == UnitKind::Let
    &&& b.kind == UnitKind::Let
    &&& (config.grouping.bindings == Bindings::Consecutive || config.grouping.bindings == Bindings::SameKind)
    &&& single_line(bytes, a)
    &&& single_line(bytes, b)
}

/// An affirmative connection between two ordinary units: a short producer and
/// its consumer, two short related bindings, a write or mutation that the next
/// unit reads, two units acting on the same written place, or an assignment and
/// an unmutating unit that read the same input.
pub open spec fn spec_related_join(config: Config, bytes: Seq<u8>, a: Unit, b: Unit) -> bool {
    let mode = config.grouping.self_fields;
    let producer = spec_intersects(places_view(a.facts.definitions@), places_view(b.facts.reads@), mode);
    let short_a = at_most_two_lines(bytes, a);
    let short_b = single_line(bytes, b);
    ||| producer && (b.kind == UnitKind::Assignment || spec_mutates(b) || (short_a && short_b
        && b.kind.spec_ordinary()) || (b.kind.spec_is_binding() && ((short_a && short_b) || (several_places(
        places_view(a.facts.definitions@),
    ) && short_b))))
    ||| short_a && short_b && a.kind.spec_is_binding() && b.kind.spec_is_binding() && spec_relationship(
        a.facts@,
        b.facts@,
        config.grouping,
    ) == Relationship::Related
    ||| b.kind.spec_ordinary() && (spec_intersects(
        places_view(a.facts.writes@),
        places_view(b.facts.reads@),
        mode,
    ) || spec_intersects(places_view(a.facts.mutating_receivers@), places_view(b.facts.reads@), mode))
    ||| a.kind.spec_ordinary() && b.kind.spec_ordinary() && (spec_intersects(
        places_view(a.facts.writes@),
        places_view(b.facts.writes@),
        mode,
    ) || spec_intersects(
        places_view(a.facts.mutating_receivers@),
        places_view(b.facts.mutating_receivers@),
        mode,
    ))
    ||| a.kind == UnitKind::Assignment && !spec_mutates(b) && spec_intersects(
        places_view(a.facts.reads@),
        places_view(b.facts.reads@),
        mode,
    )
}

/// The rule under which the optional join of `a` and `b` falls, if they belong
/// together: two compact declarations of one kind, an early-exit guard and the
/// exit it guards, a binding and the guard that tests it, or two related
/// ordinary units.
pub open spec fn spec_join_rule(config: Config, bytes: Seq<u8>, a: Unit, b: Unit) -> Option<Rule> {
    if a.kind.spec_is_item() || b.kind.spec_is_item() {
        if a.kind == b.kind && config.items.compact_declarations && match a.kind {
            UnitKind::Item(x) => declaration(x),
            _ => false,
        } {
            Some(Rule::ItemSpacing)
        } else {
            None
        }
    } else if b.kind == UnitKind::Exit || (b.is_tail && b.kind != UnitKind::Control) {
        if config.exits.tail != Tail::Preserve && a.kind == UnitKind::Control && a.is_guard && b.kind
            == UnitKind::Exit && !b.is_loop_exit {
            Some(Rule::Exit)
        } else {
            None
        }
    } else if b.kind == UnitKind::Control {
        if b.facts.check_of is None && config.grouping.bindings != Bindings::Preserve && config.grouping.expressions
            == Expressions::Related && a.kind.spec_ordinary() && b.is_guard && spec_intersects(
            places_view(a.facts.definitions@),
            places_view(b.facts.header_reads@),
            config.grouping.self_fields,
        ) {
            Some(Rule::ControlFlow)
        } else {
            None
        }
    } else if !a.kind.spec_ordinary() || !b.kind.spec_ordinary() {
        None
    } else {
        let any_binding = a.kind.spec_is_binding() || b.kind.spec_is_binding();
        let both_bindings = a.kind.spec_is_binding() && b.kind.spec_is_binding();
        if (any_binding && config.grouping.bindings == Bindings::Preserve) || (!both_bindings
            && config.grouping.expressions != Expressions::Related) {
            None
        } else if spec_short_setup(config, bytes, a, b) || spec_related_join(config, bytes, a, b) {
            Some(
                if any_binding {
                    Rule::Bindings
                } else {
                    Rule::Expressions
                },
            )
        } else {
            None
        }
    }
}

/// Whether a unit's code is readable from `bytes` and spans several lines.
pub open spec fn several_lines(bytes: Seq<u8>, unit: Unit) -> bool {
    code_text(bytes, unit) matches Some(text) && line_feed_count(text) > 0
}

/// Two constant declarations of which one spans several lines: normalization
/// keeps them apart rather than joining them.
pub open spec fn multiline_constants(bytes: Seq<u8>, a: Unit, b: Unit) -> bool {
    a.kind == UnitKind::Item(ItemKind::Constant) && b.kind == UnitKind::Item(ItemKind::Constant) && (several_lines(
        bytes,
        a,
    ) || several_lines(bytes, b))
}

/// The optional join at boundary `i` when the units around an editable, joinable
/// gap belong together; between constants of which one spans several lines, a
/// separation instead.
pub open spec fn normalize_offers(config: Config, bytes: Seq<u8>, list: UnitList, i: int) -> Seq<Decision> {
    if i + 1 >= list.units@.len() || spec_blocked(list, i) || !list.gaps@[i].joinable {
        Seq::empty()
    } else if multiline_constants(bytes, list.units@[i], list.units@[i + 1]) {
        seq![spec_separate(Rule::ItemSpacing, 60, "separate these item/declaration groups")]
    } else {
        match spec_join_rule(config, bytes, list.units@[i], list.units@[i + 1]) {
            Some(rule) => seq![optional_join_spec(rule)],
            None => Seq::empty(),
        }
    }
}

/// The decisions after the optional joins of related units, when the
/// configuration asks for them; otherwise `decisions` unchanged.
pub open spec fn normalized_decisions(
    config: Config,
    bytes: Seq<u8>,
    global_rules: RuleMask,
    list: UnitList,
    decisions: Seq<Option<Decision>>,
) -> Seq<Option<Decision>> {
    if config.grouping.join_related {
        offer_pass(
            global_rules,
            list,
            decisions,
            |i: int| normalize_offers(config, bytes, list, i),
            list.gaps@.len() as int,
        )
    } else {
        decisions
    }
}

/// The bytes of a unit's code, when its code range is a character range of `source`.
fn unit_code<'a>(source: &'a str, unit: &Unit) -> (text: Option<&'a [u8]>)
    ensures
        text matches Some(t) ==> code_text(encode_utf8(source@), *unit) == Some(t@),
        text is None ==> code_text(encode_utf8(source@), *unit) is None,
{
    let bytes = source.as_bytes();
    let start = unit.code_range.start;
    let end = unit.code_range.end;
    if start <= end && end <= bytes.len() && source.is_char_boundary(start) && source.is_char_boundary(end) {
        Some(slice_of(bytes, start, end))
    } else {
        None
    }
}

/// Whether a text spans at most two lines.
fn two_lines_at_most(text: &[u8]) -> (short: bool)
    ensures
        short == (line_count(text@) <= 2),
{
    let count = count_line_feeds(text);
    if count <= 1 {
        true
    } else if count == 2 {
        text[text.len() - 1] == 10
    } else {
        false
    }
}

/// Whether a unit's code is readable from `source` and spans at most two lines.
fn unit_at_most_two_lines(source: &str, unit: &Unit) -> (short: bool)
    ensures
        short == at_most_two_lines(encode_utf8(source@), *unit),
{
    match unit_code(source, unit) {
        Some(text) => two_lines_at_most(text),
        None => false,
    }
}

/// Whether a unit's code is readable from `source` and holds no line feed.
fn unit_single_line(source: &str, unit: &Unit) -> (single: bool)
    ensures
        single == single_line(encode_utf8(source@), *unit),
{
    match unit_code(source, unit) {
        Some(text) => count_line_feeds(text) == 0,
        None => false,
    }
}

/// Whether `places` holds at least two different places.
fn has_several_places(places: &Vec<Place>) -> (several: bool)
    ensures
        several == several_places(places_view(places@)),
{
    let ghost view = places_view(places@);
    if places.len() == 0 {
        return false;
    }
    let mut k: usize = 1;
    while k < places.len()
        invariant
            1 <= k <= places@.len(),
            view == places_view(places@),
            forall|m: int| 0 <= m < k ==> #[trigger] view[m] == view[0],
        decreases places@.len() - k,
    {
        if !same_place(&places[0], &places[k]) {
            proof {
                assert(view[0] != view[k as int]);
            }
            return true;
        }
        k = k + 1;
    }
    proof {
        assert forall|j: int, m: int| 0 <= j < m < view.len() implies view[j] == view[m] by {
            assert(view[j] == view[0]);
            assert(view[m] == view[0]);
        }
    }
    false
}

/// Whether two ordinary units have an affirmative connection.
#[verifier::rlimit(50)]
fn related_join(config: &Config, source: &str, a: &Unit, b: &Unit) -> (related: bool)
    ensures
        related == spec_related_join(*config, encode_utf8(source@), *a, *b),
{
    let mode = config.grouping.self_fields;
    let producer = intersects(&a.facts.definitions, &b.facts.reads, mode);
    let short_a = unit_at_most_two_lines(source, a);
    let short_b = unit_single_line(source, b);
    let consumer = producer && (b.kind == UnitKind::Assignment || mutates(b) || (short_a && short_b
        && b.kind.ordinary()) || (b.kind.is_binding() && ((short_a && short_b) || (has_several_places(
        &a.facts.definitions,
    ) && short_b))));
    if consumer {
        return true;
    }
    if short_a && short_b && a.kind.is_binding() && b.kind.is_binding() && relationship(
        &a.facts,
        &b.facts,
        &config.grouping,
    ) == Relationship::Related {
        return true;
    }
    if b.kind.ordinary() && (intersects(&a.facts.writes, &b.facts.reads, mode) || intersects(
        &a.facts.mutating_receivers,
        &b.facts.reads,
        mode,
    )) {
        return true;
    }
    if a.kind.ordinary() && b.kind.ordinary() && (intersects(&a.facts.writes, &b.facts.writes, mode)
        || intersects(&a.facts.mutating_receivers, &b.facts.mutating_receivers, mode)) {
        return true;
    }
    a.kind == UnitKind::Assignment && !mutates(b) && intersects(&a.facts.reads, &b.facts.reads, mode)
}

/// The rule of the optional join of `a` and `b`, if they belong together.
#[verifier::rlimit(50)]
fn join_rule(config: &Config, source: &str, a: &Unit, b: &Unit) -> (rule: Option<Rule>)
    ensures
        rule == spec_join_rule(*config, encode_utf8(source@), *a, *b),
{
    if a.kind.is_item() || b.kind.is_item() {
        let family = match a.kind {
            UnitKind::Item(x) => is_declaration(x),
            _ => false,
        };
        if a.kind == b.kind && config.items.compact_declarations && family {
            return Some(Rule::ItemSpacing);
        }
        return None;
    }
    if b.kind == UnitKind::Exit || (b.is_tail && b.kind != UnitKind::Control) {
        if config.exits.tail != Tail::Preserve && a.kind == UnitKind::Control && a.is_guard && b.kind
            == UnitKind::Exit && !b.is_loop_exit {
            return Some(Rule::Exit);
        }
        return None;
    }
    if b.kind == UnitKind::Control {
        if b.facts.check_of.is_none() && config.grouping.bindings != Bindings::Preserve
            && config.grouping.expressions == Expressions::Related && a.kind.ordinary() && b.is_guard
            && intersects(&a.facts.definitions, &b.facts.header_reads, config.grouping.self_fields) {
            return Some(Rule::ControlFlow);
        }
        return None;
    }
    if !a.kind.ordinary() || !b.kind.ordinary() {
        return None;
    }
    let any_binding = a.kind.is_binding() || b.kind.is_binding();
    let both_bindings = a.kind.is_binding() && b.kind.is_binding();
    if (any_binding && config.grouping.bindings == Bindings::Preserve) || (!both_bindings
        && config.grouping.expressions != Expressions::Related) {
        return None;
    }
    let short_setup = a.kind == UnitKind::Let && b.kind == UnitKind::Let && (config.grouping.bindings
        == Bindings::Consecutive || config.grouping.bindings == Bindings::SameKind) && unit_single_line(
        source,
        a,
    ) && unit_single_line(source, b);
    if short_setup || related_join(config, source, a, b) {
        Some(
            if any_binding {
                Rule::Bindings
            } else {
                Rule::Expressions
            },
        )
    } else {
        None
    }
}

/// Where the configuration asks for related units to be joined, removes the
/// optional separator between units that belong together at every editable,
/// joinable boundary that no stronger decision owns.
pub fn normalize(
    config: &Config,
    source: &str,
    global_rules: RuleMask,
    list: &UnitList,
    decisions: &mut Vec<Option<Decision>>,
)
    ensures
        strengthens(global_rules, *list, old(decisions)@, final(decisions)@),
        final(decisions)@ == normalized_decisions(
            *config,
            encode_utf8(source@),
            global_rules,
            *list,
            old(decisions)@,
        ),
        !config.grouping.join_related ==> final(decisions)@ == old(decisions)@,
{
    let ghost initial = decisions@;
    proof {
        assert(strengthens(global_rules, *list, initial, initial));
    }
    if !config.grouping.join_related {
        return;
    }
    let ghost bytes = encode_utf8(source@);
    let ghost joins = |j: int| normalize_offers(*config, bytes, *list, j);
    let mut i: usize = 0;
    while i < list.gaps.len()
        invariant
            i <= list.gaps@.len(),
            bytes == encode_utf8(source@),
            strengthens(global_rules, *list, initial, decisions@),
            joins == (|j: int| normalize_offers(*config, bytes, *list, j)),
            decisions@ == offer_pass(global_rules, *list, initial, joins, i as int),
        decreases list.gaps@.len() - i,
    {
        let editable = i + 1 < list.units.len() && !blocked(list, i) && list.gaps[i].joinable;
        let apart = editable && multiline_constant_pair(source, &list.units[i], &list.units[i + 1]);
        let rule = if editable && !apart {
            join_rule(config, source, &list.units[i], &list.units[i + 1])
        } else {
            None
        };
        let ghost start = decisions@;
        if apart {
            offer_if(
                true,
                global_rules,
                list,
                decisions,
                i,
                separate(Rule::ItemSpacing, 60, "separate these item/declaration groups"),
                Ghost(initial),
            );
        } else {
            match rule {
                Some(rule) => {
                    offer_if(true, global_rules, list, decisions, i, optional_join(rule), Ghost(initial));
                    proof {
                        assert(joins(i as int) == seq![optional_join_spec(rule)]);
                    }
                },
                None => {
                    proof {
                        assert(joins(i as int) =~= Seq::<Decision>::empty());
                        assert(put_all(global_rules, *list, start, i as int, Seq::empty()) == start);
                    }
                },
            }
        }
        i = i + 1;
    }
    proof {
        assert(joins =~= (|j: int| normalize_offers(*config, bytes, *list, j)));
    }
}

/// Whether a unit's code is readable from `source` and spans several lines.
fn unit_several_lines(source: &str, unit: &Unit) -> (several: bool)
    ensures
        several == several_lines(encode_utf8(source@), *unit),
{
    match unit_code(source, unit) {
        Some(text) => count_line_feeds(text) > 0,
        None => false,
    }
}

/// Whether two units are constants of which one spans several lines.
fn multiline_constant_pair(source: &str, a: &Unit, b: &Unit) -> (apart: bool)
    ensures
        apart == multiline_constants(encode_utf8(source@), *a, *b),
{
    a.kind == UnitKind::Item(ItemKind::Constant) && b.kind == UnitKind::Item(ItemKind::Constant) && (
    unit_several_lines(source, a) || unit_several_lines(source, b))
}

/// The optional join under `rule`.
pub open spec fn optional_join_spec(rule: Rule) -> Decision {
    Decision {
        blanks: 0,
        rule,
        priority: 20,
        message: "remove this separator within a cohesive phase",
        anchor: None,
    }
}

} // verus!
