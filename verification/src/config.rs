//! The public configuration schema. Unknown keys and unimplemented modes are errors.
use vstd::prelude::*;

use crate::model::{all_rules, lemma_all_rules, rule_index, rule_name, Rule, RuleMask};

verus! {

/// Policy for adjacent bindings and assignments.
#[derive(Clone, Copy, Debug, PartialEq, Eq, Structural)]
pub enum Bindings {
    /// Keep consecutive bindings together.
    Consecutive,
    /// Join only bindings of the same syntactic kind.
    SameKind,
    /// Join bindings with a known semantic relationship.
    Related,
    /// Retain existing binding spacing.
    Preserve,
}

impl Default for Bindings {
    fn default() -> (value: Self)
        ensures
            value == Bindings::Consecutive,
    {
        Bindings::Consecutive
    }
}

/// Policy for adjacent ordinary expressions.
#[derive(Clone, Copy, Debug, PartialEq, Eq, Structural)]
pub enum Expressions {
    /// Group semantically related expressions.
    Related,
    /// Separate ordinary expressions.
    Strict,
    /// Retain existing expression spacing.
    Preserve,
}

impl Default for Expressions {
    fn default() -> (value: Self)
        ensures
            value == Expressions::Related,
    {
        Expressions::Related
    }
}

/// How `self` field projections participate in relationships.
#[derive(Clone, Copy, Debug, PartialEq, Eq, Structural)]
pub enum SelfFields {
    /// Treat sibling fields as distinct places.
    Distinct,
    /// Relate all projections of the same `self` binding.
    Root,
}

impl Default for SelfFields {
    fn default() -> (value: Self)
        ensures
            value == SelfFields::Root,
    {
        SelfFields::Root
    }
}

/// How excess setup is separated from control flow.
#[derive(Clone, Copy, Debug, PartialEq, Eq, Structural)]
pub enum Overflow {
    /// Retain only a bounded related suffix.
    RelatedSuffix,
    /// Separate the complete setup group when it exceeds the limit.
    WholeGroup,
}

impl Default for Overflow {
    fn default() -> (value: Self)
        ensures
            value == Overflow::WholeGroup,
    {
        Overflow::WholeGroup
    }
}

/// Scope of reads used to associate setup with control flow.
#[derive(Clone, Copy, Debug, PartialEq, Eq, Structural)]
pub enum UseIn {
    /// Consider only header reads.
    Header,
    /// Include reads from the first direct body statement.
    HeaderOrFirstBodyStatement,
    /// Include all non-deferred body reads.
    WholeBody,
}

impl Default for UseIn {
    fn default() -> (value: Self)
        ensures
            value == UseIn::HeaderOrFirstBodyStatement,
    {
        UseIn::HeaderOrFirstBodyStatement
    }
}

/// Whether a category requires a blank-line boundary.
#[derive(Clone, Copy, Debug, PartialEq, Eq, Structural)]
pub enum Separation {
    /// Require a separating blank line.
    Separate,
    /// Retain existing spacing for this category.
    Preserve,
}

impl Default for Separation {
    fn default() -> (value: Self)
        ensures
            value == Separation::Separate,
    {
        Separation::Separate
    }
}

/// Treatment of consecutive short exiting guards.
#[derive(Clone, Copy, Debug, PartialEq, Eq, Structural)]
pub enum GuardChain {
    /// Permit guards to remain adjacent.
    Allow,
    /// Apply normal separation between guards.
    Separate,
}

impl Default for GuardChain {
    fn default() -> (value: Self)
        ensures
            value == GuardChain::Allow,
    {
        GuardChain::Allow
    }
}

/// Spacing policy for a block's final value.
#[derive(Clone, Copy, Debug, PartialEq, Eq, Structural)]
pub enum Tail {
    /// Consider block size and immediate producer relationships.
    Smart,
    /// Require separation before the tail value.
    AlwaysSeparate,
    /// Retain existing tail spacing.
    Preserve,
}

impl Default for Tail {
    fn default() -> (value: Self)
        ensures
            value == Tail::Smart,
    {
        Tail::Smart
    }
}

/// Treatment of a compiler-confirmed immediate Result/Option check.
#[derive(Clone, Copy, Debug, PartialEq, Eq, Structural)]
pub enum ImmediateCheck {
    /// Keep the producer and check adjacent.
    Join,
    /// Apply ordinary grouping and separation policies.
    Ordinary,
}

impl Default for ImmediateCheck {
    fn default() -> (value: Self)
        ensures
            value == ImmediateCheck::Join,
    {
        ImmediateCheck::Join
    }
}

/// Statement relationship policy and control-flow setup limits.
#[derive(Clone, Copy, Debug, PartialEq, Eq, Structural)]
pub struct Grouping {
    /// Binding policy; defaults to consecutive.
    pub bindings: Bindings,
    /// Expression policy; defaults to related.
    pub expressions: Expressions,
    /// Whether a shared method receiver establishes relatedness; defaults to true.
    pub same_receiver: bool,
    /// Whether shared reads establish relatedness; defaults to true.
    pub shared_inputs: bool,
    /// Whether accesses to the same aggregate establish relatedness; defaults to true.
    pub same_object: bool,
    /// Whether direct calls to the same resolved function establish relatedness; defaults to true.
    pub same_callee: bool,
    /// Whether consecutive assignments or mutable receiver calls relate; defaults to true.
    pub consecutive_mutations: bool,
    /// `self` projection matching; defaults to the same receiver root.
    pub self_fields: SelfFields,
    /// Maximum ordinary setup units attached to control flow; defaults to 1.
    pub max_before_control: usize,
    /// How excess setup is split; defaults to preserving the whole group.
    pub overflow: Overflow,
    /// Reads considered for setup; defaults to header and first body statement.
    pub use_in: UseIn,
    /// Whether related units may lose existing blank lines; defaults to false.
    pub join_related: bool,
}

/// The documented default grouping policy.
pub open spec fn default_grouping() -> Grouping {
    Grouping {
        bindings: Bindings::Consecutive,
        expressions: Expressions::Related,
        same_receiver: true,
        shared_inputs: true,
        same_object: true,
        same_callee: true,
        consecutive_mutations: true,
        self_fields: SelfFields::Root,
        max_before_control: 1,
        overflow: Overflow::WholeGroup,
        use_in: UseIn::HeaderOrFirstBodyStatement,
        join_related: false,
    }
}

impl Default for Grouping {
    fn default() -> (value: Self)
        ensures
            value == default_grouping(),
    {
        Grouping {
            bindings: Bindings::Consecutive,
            expressions: Expressions::Related,
            same_receiver: true,
            shared_inputs: true,
            same_object: true,
            same_callee: true,
            consecutive_mutations: true,
            self_fields: SelfFields::Root,
            max_before_control: 1,
            overflow: Overflow::WholeGroup,
            use_in: UseIn::HeaderOrFirstBodyStatement,
            join_related: false,
        }
    }
}

/// Rules for standalone blocks and adjacent exiting guards.
#[derive(Clone, Copy, Debug, PartialEq, Eq, Structural)]
pub struct ControlFlow {
    /// Whether to separate after standalone blocks; defaults to separate.
    pub after_block: Separation,
    /// Whether adjacent short guards may stay compact; defaults to allow.
    pub guard_chain: GuardChain,
    /// Keep a block with a following operation on the same receiver; defaults to true.
    pub related_continuation: bool,
    /// Keep known mutations and empty for-loop drains in one cleanup phase; defaults to true.
    pub compact_cleanup: bool,
}

/// The documented default control-flow policy.
pub open spec fn default_control_flow() -> ControlFlow {
    ControlFlow {
        after_block: Separation::Separate,
        guard_chain: GuardChain::Allow,
        related_continuation: true,
        compact_cleanup: true,
    }
}

impl Default for ControlFlow {
    fn default() -> (value: Self)
        ensures
            value == default_control_flow(),
    {
        ControlFlow {
            after_block: Separation::Separate,
            guard_chain: GuardChain::Allow,
            related_continuation: true,
            compact_cleanup: true,
        }
    }
}

/// Spacing of explicit exits and final block values.
#[derive(Clone, Copy, Debug, PartialEq, Eq, Structural)]
pub struct Exits {
    /// Direct executable-unit threshold for a short block; defaults to 4.
    pub short_block_max_statements: usize,
    /// Tail-value spacing policy; defaults to smart.
    pub tail: Tail,
    /// Keep a state update with its immediate valueless break/continue; defaults to true.
    pub attached_loop_exit: bool,
}

/// The documented default exit policy.
pub open spec fn default_exits() -> Exits {
    Exits { short_block_max_statements: 4, tail: Tail::Smart, attached_loop_exit: true }
}

impl Default for Exits {
    fn default() -> (value: Self)
        ensures
            value == default_exits(),
    {
        Exits { short_block_max_statements: 4, tail: Tail::Smart, attached_loop_exit: true }
    }
}

/// Spacing for compiler-confirmed result inspections.
#[derive(Clone, Copy, Debug, PartialEq, Eq, Structural)]
pub struct ErrorHandling {
    /// Producer/check adjacency; defaults to join.
    pub immediate_result_option_check: ImmediateCheck,
}

impl Default for ErrorHandling {
    fn default() -> (value: Self)
        ensures
            value.immediate_result_option_check == ImmediateCheck::Join,
    {
        ErrorHandling { immediate_result_option_check: ImmediateCheck::Join }
    }
}

/// Spacing between functions, major items, and compact declarations.
#[derive(Clone, Copy, Debug, PartialEq, Eq, Structural)]
pub struct Items {
    /// Spacing between functions with bodies; defaults to separate.
    pub functions: Separation,
    /// Spacing around major declarations; defaults to separate.
    pub major_items: Separation,
    /// Whether compact declarations can remain adjacent; defaults to true.
    pub compact_declarations: bool,
}

/// The documented default item policy.
pub open spec fn default_items() -> Items {
    Items {
        functions: Separation::Separate,
        major_items: Separation::Separate,
        compact_declarations: true,
    }
}

impl Default for Items {
    fn default() -> (value: Self)
        ensures
            value == default_items(),
    {
        Items {
            functions: Separation::Separate,
            major_items: Separation::Separate,
            compact_declarations: true,
        }
    }
}

/// Complete spacing configuration; omitted fields use their documented defaults.
#[derive(Clone, Debug)]
pub struct Config {
    /// Configuration schema version; must be 1.
    pub schema_version: u32,
    /// Additional checks to enable beyond default rules.
    pub enable: Vec<Rule>,
    /// Checks to disable from default rules.
    pub disable: Vec<Rule>,
    /// Relationships and limits for statement groups.
    pub grouping: Grouping,
    /// Spacing after blocks and between guards.
    pub control_flow: ControlFlow,
    /// Block-size and tail-value policy.
    pub exits: Exits,
    /// Policy for immediate Result/Option checks.
    pub error_handling: ErrorHandling,
    /// Spacing between declaration categories.
    pub items: Items,
}

/// Whether every policy section of `config` holds its documented default.
pub open spec fn default_policies(config: Config) -> bool {
    &&& config.schema_version == 1
    &&& config.grouping == default_grouping()
    &&& config.control_flow == default_control_flow()
    &&& config.exits == default_exits()
    &&& config.error_handling.immediate_result_option_check == ImmediateCheck::Join
    &&& config.items == default_items()
}

impl Default for Config {
    fn default() -> (config: Self)
        ensures
            default_policies(config),
            config.enable@.len() == 0,
            config.disable@.len() == 0,
    {
        Config {
            schema_version: 1,
            enable: Vec::new(),
            disable: Vec::new(),
            grouping: Grouping::default(),
            control_flow: ControlFlow::default(),
            exits: Exits::default(),
            error_handling: ErrorHandling::default(),
            items: Items::default(),
        }
    }
}

/// Whether some rule occurs twice in `rules`.
pub open spec fn has_duplicate(rules: Seq<Rule>) -> bool {
    exists|i: int, j: int| 0 <= i < j < rules.len() && rules[i] == rules[j]
}

/// The first rule of `enable`, from position `from` on, that `disable` also names.
pub open spec fn first_conflict(enable: Seq<Rule>, disable: Seq<Rule>, from: int) -> Option<Rule>
    decreases enable.len() - from,
{
    if from < 0 || from >= enable.len() {
        None
    } else if disable.contains(enable[from]) {
        Some(enable[from])
    } else {
        first_conflict(enable, disable, from + 1)
    }
}

/// The message with which a configuration is rejected, or `None` if it is valid.
pub open spec fn validation_error(config: Config) -> Option<Seq<char>> {
    if config.schema_version != 1 {
        Some("statement_spacing.schema_version must be 1"@)
    } else if config.grouping.max_before_control > 1024 {
        Some("statement_spacing max_before_control must be between 0 and 1024"@)
    } else if config.exits.short_block_max_statements > 1024 {
        Some("statement_spacing short_block_max_statements must be between 0 and 1024"@)
    } else if has_duplicate(config.enable@) {
        Some("statement_spacing.enable contains a duplicate check"@)
    } else if has_duplicate(config.disable@) {
        Some("statement_spacing.disable contains a duplicate check"@)
    } else {
        match first_conflict(config.enable@, config.disable@, 0) {
            Some(rule) => Some(rule_name(rule) + " is both enabled and disabled"@),
            None => None,
        }
    }
}

/// The rules enabled by default: every rule but layout.
pub open spec fn default_rule_set() -> Set<Rule> {
    Set::<Rule>::full().remove(Rule::Layout)
}

/// The effective rule set of a configuration: defaults plus enabled minus disabled.
pub open spec fn effective_rules(config: Config) -> Set<Rule> {
    default_rule_set().union(config.enable@.to_set()).difference(config.disable@.to_set())
}

/// Whether `rules` contains `rule`.
fn contains_rule(rules: &[Rule], rule: Rule) -> (found: bool)
    ensures
        found == rules@.contains(rule),
{
    let mut i: usize = 0;
    while i < rules.len()
        invariant
            i <= rules@.len(),
            forall|k: int| 0 <= k < i ==> rules@[k] != rule,
        decreases rules@.len() - i,
    {
        if rules[i] == rule {
            return true;
        }
        i = i + 1;
    }
    false
}

/// Whether some rule occurs twice in `rules`.
fn duplicated(rules: &Vec<Rule>) -> (dup: bool)
    ensures
        dup == has_duplicate(rules@),
{
    let mut seen = RuleMask::none();
    let mut i: usize = 0;
    while i < rules.len()
        invariant
            i <= rules@.len(),
            seen@ == rules@.subrange(0, i as int).to_set(),
            !has_duplicate(rules@.subrange(0, i as int)),
        decreases rules@.len() - i,
    {
        let rule = rules[i];
        proof {
            assert(rules@.subrange(0, i as int + 1) =~= rules@.subrange(0, i as int).push(rule));
        }
        if seen.has(rule) {
            proof {
                let j = choose|j: int| 0 <= j < i && rules@.subrange(0, i as int)[j] == rule;
                assert(rules@[j] == rules@[i as int]);
            }
            return true;
        }
        seen = seen.with(rule);
        proof {
            rules@.subrange(0, i as int).lemma_push_to_set_commute(rule);
            assert(seen@ =~= rules@.subrange(0, i as int + 1).to_set());
            let prefix = rules@.subrange(0, i as int + 1);
            assert forall|a: int, b: int| 0 <= a < b < prefix.len() implies prefix[a]
                != prefix[b] by {
                if b == i as int {
                    assert(rules@.subrange(0, i as int).contains(prefix[a]));
                } else {
                    assert(rules@.subrange(0, i as int)[a] == prefix[a]);
                    assert(rules@.subrange(0, i as int)[b] == prefix[b]);
                }
            }
        }
        i = i + 1;
    }
    proof {
        assert(rules@.subrange(0, rules@.len() as int) =~= rules@);
    }
    false
}

/// The message for a rule that is both enabled and disabled.
fn conflict_message(rule: Rule) -> (message: String)
    ensures
        message@ == rule_name(rule) + " is both enabled and disabled"@,
{
    let mut message = String::from_str(rule.name());
    message.append(" is both enabled and disabled");
    message
}

impl Config {
    /// Checks schema, numeric limits, and rule overrides.
    ///
    /// Rejects unsupported schema versions, limits above 1024, and duplicate or
    /// contradictory overrides, with the first applicable message.
    pub fn validate(&self) -> (result: Result<(), String>)
        ensures
            result is Ok <==> validation_error(*self) is None,
            result matches Err(message) ==> validation_error(*self) == Some(message@),
    {
        if self.schema_version != 1 {
            return Err(String::from_str("statement_spacing.schema_version must be 1"));
        }
        if self.grouping.max_before_control > 1024 {
            return Err(
                String::from_str("statement_spacing max_before_control must be between 0 and 1024"),
            );
        }
        if self.exits.short_block_max_statements > 1024 {
            return Err(
                String::from_str(
                    "statement_spacing short_block_max_statements must be between 0 and 1024",
                ),
            );
        }
        if duplicated(&self.enable) {
            return Err(String::from_str("statement_spacing.enable contains a duplicate check"));
        }
        if duplicated(&self.disable) {
            return Err(String::from_str("statement_spacing.disable contains a duplicate check"));
        }
        let mut i: usize = 0;
        while i < self.enable.len()
            invariant
                i <= self.enable@.len(),
                self.schema_version == 1,
                self.grouping.max_before_control <= 1024,
                self.exits.short_block_max_statements <= 1024,
                !has_duplicate(self.enable@),
                !has_duplicate(self.disable@),
                first_conflict(self.enable@, self.disable@, 0) == first_conflict(
                    self.enable@,
                    self.disable@,
                    i as int,
                ),
            decreases self.enable@.len() - i,
        {
            let rule = self.enable[i];
            if contains_rule(self.disable.as_slice(), rule) {
                assert(first_conflict(self.enable@, self.disable@, i as int) == Some(rule));
                return Err(conflict_message(rule));
            }
            i = i + 1;
        }
        Ok(())
    }

    /// Computes the effective rule set with enable and disable overrides applied.
    pub fn enabled(&self) -> (mask: RuleMask)
        ensures
            mask@ == effective_rules(*self),
    {
        let mut mask = RuleMask::all().without(Rule::Layout);
        let mut i: usize = 0;
        while i < self.enable.len()
            invariant
                i <= self.enable@.len(),
                mask@ == default_rule_set().union(self.enable@.subrange(0, i as int).to_set()),
            decreases self.enable@.len() - i,
        {
            let rule = self.enable[i];
            mask = mask.with(rule);
            proof {
                self.enable@.subrange(0, i as int).lemma_push_to_set_commute(rule);
                assert(self.enable@.subrange(0, i as int + 1) =~= self.enable@.subrange(
                    0,
                    i as int,
                ).push(rule));
                assert(mask@ =~= default_rule_set().union(
                    self.enable@.subrange(0, i as int + 1).to_set(),
                ));
            }
            i = i + 1;
        }
        let ghost enabled = mask@;
        proof {
            assert(self.enable@.subrange(0, i as int) =~= self.enable@);
        }
        let mut j: usize = 0;
        while j < self.disable.len()
            invariant
                j <= self.disable@.len(),
                enabled == default_rule_set().union(self.enable@.to_set()),
                mask@ == enabled.difference(self.disable@.subrange(0, j as int).to_set()),
            decreases self.disable@.len() - j,
        {
            let rule = self.disable[j];
            mask = mask.without(rule);
            proof {
                self.disable@.subrange(0, j as int).lemma_push_to_set_commute(rule);
                assert(self.disable@.subrange(0, j as int + 1) =~= self.disable@.subrange(
                    0,
                    j as int,
                ).push(rule));
                assert(mask@ =~= enabled.difference(
                    self.disable@.subrange(0, j as int + 1).to_set(),
                ));
            }
            j = j + 1;
        }
        proof {
            assert(self.disable@.subrange(0, j as int) =~= self.disable@);
        }
        mask
    }

    /// Creates a configuration with only the specified rules enabled.
    ///
    /// Layout, which is off by default, is enabled explicitly when requested;
    /// every other rule that was not requested is disabled, in declaration order.
    pub fn only(rules: &[Rule]) -> (config: Self)
        ensures
            default_policies(config),
            config.enable@ == (if rules@.contains(Rule::Layout) {
                seq![Rule::Layout]
            } else {
                Seq::<Rule>::empty()
            }),
            config.disable@ == all_rules().take(7).filter(unrequested(rules@)),
    {
        let mut enable: Vec<Rule> = Vec::new();
        let mut disable: Vec<Rule> = Vec::new();
        let all = Rule::ALL;
        let mut i: usize = 0;
        proof {
            assert(all@ == all_rules());
            assert(all_rules().take(0) =~= Seq::<Rule>::empty());
            reveal_with_fuel(Seq::filter, 1);
        }
        while i < 8
            invariant
                i <= 8,
                all@ == all_rules(),
                enable@ == (if rules@.contains(Rule::Layout) && i == 8 {
                    seq![Rule::Layout]
                } else {
                    Seq::<Rule>::empty()
                }),
                disable@ == all_rules().take(if i < 7 {
                    i as int
                } else {
                    7
                }).filter(unrequested(rules@)),
            decreases 8 - i,
        {
            let rule = all[i];
            let requested = contains_rule(rules, rule);
            proof {
                if i < 7 {
                    assert(all_rules().take(i as int + 1) =~= all_rules().take(i as int).push(
                        rule,
                    ));
                    all_rules().take(i as int).lemma_filter_push(rule, unrequested(rules@));
                }
            }
            if requested {
                if rule == Rule::Layout {
                    enable.push(rule);
                }
            } else if rule != Rule::Layout {
                disable.push(rule);
            }
            i = i + 1;
        }
        Config {
            schema_version: 1,
            enable,
            disable,
            grouping: Grouping::default(),
            control_flow: ControlFlow::default(),
            exits: Exits::default(),
            error_handling: ErrorHandling::default(),
            items: Items::default(),
        }
    }
}

/// The filter that keeps the rules not named in `rules`.
pub open spec fn unrequested(rules: Seq<Rule>) -> spec_fn(Rule) -> bool {
    |r: Rule| !rules.contains(r)
}

/// Filtering the first `k` rules keeps them in strictly increasing declaration order.
proof fn lemma_filtered_prefix_increasing(rules: Seq<Rule>, k: int)
    requires
        0 <= k <= 8,
    ensures
        ({
            let s = all_rules().take(k).filter(unrequested(rules));
            &&& forall|a: int, b: int|
                0 <= a < b < s.len() ==> rule_index(#[trigger] s[a]) < rule_index(#[trigger] s[b])
            &&& forall|a: int| 0 <= a < s.len() ==> rule_index(#[trigger] s[a]) < k
        }),
    decreases k,
{
    let p = unrequested(rules);
    lemma_all_rules(Rule::Layout);
    if k == 0 {
        assert(all_rules().take(0) =~= Seq::<Rule>::empty());
        assert(Seq::<Rule>::empty().filter(p) =~= Seq::<Rule>::empty()) by {
            reveal_with_fuel(Seq::filter, 1);
        }
    } else {
        lemma_filtered_prefix_increasing(rules, k - 1);
        let prev = all_rules().take(k - 1);
        let elem = all_rules()[k - 1];
        assert(all_rules().take(k) =~= prev.push(elem));
        prev.lemma_filter_push(elem, p);
        assert(rule_index(elem) == k - 1);
    }
}

/// A configuration made by [`Config::only`] enables exactly the requested rules,
/// and it is valid.
pub proof fn lemma_only_enables_exactly(rules: Seq<Rule>, config: Config)
    requires
        default_policies(config),
        config.enable@ == (if rules.contains(Rule::Layout) {
            seq![Rule::Layout]
        } else {
            Seq::<Rule>::empty()
        }),
        config.disable@ == all_rules().take(7).filter(unrequested(rules)),
    ensures
        effective_rules(config) == rules.to_set(),
        validation_error(config) is None,
{
    let p = unrequested(rules);
    let disable = config.disable@;
    let taken = all_rules().take(7);
    lemma_filtered_prefix_increasing(rules, 7);
    lemma_all_rules(Rule::Layout);
    assert(!disable.contains(Rule::Layout)) by {
        if disable.contains(Rule::Layout) {
            let k = choose|k: int| 0 <= k < disable.len() && disable[k] == Rule::Layout;
            assert(rule_index(disable[k]) < 7);
        }
    }
    assert forall|rule: Rule| #[trigger] effective_rules(config).contains(rule) == rules.to_set().contains(rule) by {
        lemma_all_rules(rule);
        if rule == Rule::Layout {
            if rules.contains(rule) {
                assert(config.enable@[0] == rule);
                assert(config.enable@.contains(rule));
            }
        } else {
            assert(!config.enable@.contains(rule));
            assert(taken[rule_index(rule) as int] == rule);
            if rules.contains(rule) {
                if disable.contains(rule) {
                    taken.lemma_filter_contains_rev(p, rule);
                    let k = choose|k: int| 0 <= k < disable.len() && disable[k] == rule;
                    taken.lemma_filter_pred(p, k);
                }
            } else {
                taken.lemma_filter_contains(p, rule_index(rule) as int);
            }
        }
    }
    assert(effective_rules(config) =~= rules.to_set());
    assert(!has_duplicate(disable)) by {
        if has_duplicate(disable) {
            let (a, b) = choose|a: int, b: int| 0 <= a < b < disable.len() && disable[a] == disable[b];
            assert(rule_index(disable[a]) < rule_index(disable[b]));
        }
    }
    assert(!has_duplicate(config.enable@));
    assert(first_conflict(config.enable@, disable, 0) is None) by {
        if rules.contains(Rule::Layout) {
            reveal_with_fuel(first_conflict, 2);
        }
    }
}

} // verus!
