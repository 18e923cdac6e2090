//! Source units, compiler facts, and rule identifiers.
use vstd::prelude::*;

verus! {

/// Independently configurable spacing checks, identified by their short names.
#[derive(Clone, Copy, Debug, PartialEq, Eq, Structural, PartialOrd, Ord, Hash)]
pub enum Rule {
    /// Grouping of bindings and assignments.
    Bindings,
    /// Grouping of ordinary expressions.
    Expressions,
    /// Bounded setup before a control-flow statement.
    ControlFlow,
    /// Separation after a standalone block or control-flow statement.
    AfterBlock,
    /// Separation of explicit exits and tail values.
    Exit,
    /// Adjacency of a producer and its immediate Result/Option check.
    ResultCheck,
    /// Separation of declarations and functions.
    ItemSpacing,
    /// Removal of surplus vertical whitespace.
    Layout,
}

/// Declaration-order position of a rule; also its bit in a [`RuleMask`].
pub open spec fn rule_index(rule: Rule) -> u8 {
    match rule {
        Rule::Bindings => 0,
        Rule::Expressions => 1,
        Rule::ControlFlow => 2,
        Rule::AfterBlock => 3,
        Rule::Exit => 4,
        Rule::ResultCheck => 5,
        Rule::ItemSpacing => 6,
        Rule::Layout => 7,
    }
}

/// The short configuration key of a rule.
pub open spec fn rule_name(rule: Rule) -> Seq<char> {
    match rule {
        Rule::Bindings => "bindings"@,
        Rule::Expressions => "expressions"@,
        Rule::ControlFlow => "control_flow"@,
        Rule::AfterBlock => "after_block"@,
        Rule::Exit => "exit"@,
        Rule::ResultCheck => "result_check"@,
        Rule::ItemSpacing => "item_spacing"@,
        Rule::Layout => "layout"@,
    }
}

/// Every rule in declaration order.
pub open spec fn all_rules() -> Seq<Rule> {
    seq![
        Rule::Bindings,
        Rule::Expressions,
        Rule::ControlFlow,
        Rule::AfterBlock,
        Rule::Exit,
        Rule::ResultCheck,
        Rule::ItemSpacing,
        Rule::Layout,
    ]
}

/// Every rule occurs in [`all_rules`], exactly at its index.
pub proof fn lemma_all_rules(rule: Rule)
    ensures
        all_rules().len() == 8,
        all_rules()[rule_index(rule) as int] == rule,
        all_rules().contains(rule),
        forall|i: int| 0 <= i < 8 ==> rule_index(#[trigger] all_rules()[i]) == i,
{
    assert(all_rules()[rule_index(rule) as int] == rule);
}

impl Rule {
    /// All supported checks in declaration order.
    pub const ALL: [Rule; 8] = [
        Rule::Bindings,
        Rule::Expressions,
        Rule::ControlFlow,
        Rule::AfterBlock,
        Rule::Exit,
        Rule::ResultCheck,
        Rule::ItemSpacing,
        Rule::Layout,
    ];

    /// Declaration-order position of this rule.
    pub fn index(self) -> (i: u8)
        ensures
            i == rule_index(self),
            i < 8,
    {
        match self {
            Rule::Bindings => 0,
            Rule::Expressions => 1,
            Rule::ControlFlow => 2,
            Rule::AfterBlock => 3,
            Rule::Exit => 4,
            Rule::ResultCheck => 5,
            Rule::ItemSpacing => 6,
            Rule::Layout => 7,
        }
    }

    /// Returns the short configuration key for this check.
    pub fn name(self) -> (name: &'static str)
        ensures
            name@ == rule_name(self),
    {
        proof {
            reveal_strlit("bindings");
            reveal_strlit("expressions");
            reveal_strlit("control_flow");
            reveal_strlit("after_block");
            reveal_strlit("exit");
            reveal_strlit("result_check");
            reveal_strlit("item_spacing");
            reveal_strlit("layout");
        }
        match self {
            Rule::Bindings => "bindings",
            Rule::Expressions => "expressions",
            Rule::ControlFlow => "control_flow",
            Rule::AfterBlock => "after_block",
            Rule::Exit => "exit",
            Rule::ResultCheck => "result_check",
            Rule::ItemSpacing => "item_spacing",
            Rule::Layout => "layout",
        }
    }

    /// Returns the fully qualified compiler lint identifier.
    pub fn lint_name(self) -> (name: String)
        ensures
            name@ == "statement_spacing_"@ + rule_name(self),
    {
        let mut name = String::from_str("statement_spacing_");
        name.append(self.name());
        name
    }
}

/// The mask bit that represents a rule.
pub open spec fn rule_bit(rule: Rule) -> u16 {
    1u16 << rule_index(rule)
}

/// Set of enabled checks; the default includes all supported rules.
#[derive(Clone, Copy, Debug, PartialEq, Eq, Structural)]
pub struct RuleMask(u16);

impl View for RuleMask {
    type V = Set<Rule>;

    closed spec fn view(&self) -> Set<Rule> {
        Set::new(|rule: Rule| self.0 & rule_bit(rule) != 0)
    }
}

/// Setting, clearing and testing single bits below the eighth.
proof fn lemma_mask_bits(a: u16, b: u16, i: u8, j: u8)
    requires
        i < 8,
        j < 8,
    ensures
        ((a | (1u16 << i)) & (1u16 << j) != 0) == (i == j || a & (1u16 << j) != 0),
        ((a & !(1u16 << i)) & (1u16 << j) != 0) == (i != j && a & (1u16 << j) != 0),
        ((a & b) & (1u16 << j) != 0) == (a & (1u16 << j) != 0 && b & (1u16 << j) != 0),
        (0xffu16 & (1u16 << j)) != 0,
        (0u16 & (1u16 << j)) == 0,
{
    assert(((a | (1u16 << i)) & (1u16 << j) != 0) == (i == j || a & (1u16 << j) != 0))
        by (bit_vector)
        requires
            i < 8,
            j < 8,
    ;
    assert(((a & !(1u16 << i)) & (1u16 << j) != 0) == (i != j && a & (1u16 << j) != 0))
        by (bit_vector)
        requires
            i < 8,
            j < 8,
    ;
    assert(((a & b) & (1u16 << j) != 0) == (a & (1u16 << j) != 0 && b & (1u16 << j) != 0))
        by (bit_vector)
        requires
            j < 8,
    ;
    assert((0xffu16 & (1u16 << j)) != 0) by (bit_vector)
        requires
            j < 8,
    ;
    assert((0u16 & (1u16 << j)) == 0) by (bit_vector);
}

/// Masks are equal when they enable the same rules: a mask holds no bit besides
/// those of the rules, so removing a rule from, or intersecting, masks that enable
/// the same rules gives equal masks.
pub proof fn lemma_masks_equal(a: RuleMask, b: RuleMask)
    requires
        a.bounded(),
        b.bounded(),
        a@ == b@,
    ensures
        a == b,
{
    let x = a.0;
    let y = b.0;
    assert(a@.contains(Rule::Bindings) == b@.contains(Rule::Bindings));
    assert(a@.contains(Rule::Expressions) == b@.contains(Rule::Expressions));
    assert(a@.contains(Rule::ControlFlow) == b@.contains(Rule::ControlFlow));
    assert(a@.contains(Rule::AfterBlock) == b@.contains(Rule::AfterBlock));
    assert(a@.contains(Rule::Exit) == b@.contains(Rule::Exit));
    assert(a@.contains(Rule::ResultCheck) == b@.contains(Rule::ResultCheck));
    assert(a@.contains(Rule::ItemSpacing) == b@.contains(Rule::ItemSpacing));
    assert(a@.contains(Rule::Layout) == b@.contains(Rule::Layout));
    assert forall|rule: Rule| (x & rule_bit(rule) != 0) == (y & rule_bit(rule) != 0) by {
        assert(a@.contains(rule) == (x & rule_bit(rule) != 0));
        assert(b@.contains(rule) == (y & rule_bit(rule) != 0));
    }
    assert(rule_bit(Rule::Bindings) == 1u16 << 0u8);
    assert(rule_bit(Rule::Expressions) == 1u16 << 1u8);
    assert(rule_bit(Rule::ControlFlow) == 1u16 << 2u8);
    assert(rule_bit(Rule::AfterBlock) == 1u16 << 3u8);
    assert(rule_bit(Rule::Exit) == 1u16 << 4u8);
    assert(rule_bit(Rule::ResultCheck) == 1u16 << 5u8);
    assert(rule_bit(Rule::ItemSpacing) == 1u16 << 6u8);
    assert(rule_bit(Rule::Layout) == 1u16 << 7u8);
    assert((x & rule_bit(Rule::Bindings) != 0) == (y & rule_bit(Rule::Bindings) != 0));
    assert((x & rule_bit(Rule::Expressions) != 0) == (y & rule_bit(Rule::Expressions) != 0));
    assert((x & rule_bit(Rule::ControlFlow) != 0) == (y & rule_bit(Rule::ControlFlow) != 0));
    assert((x & rule_bit(Rule::AfterBlock) != 0) == (y & rule_bit(Rule::AfterBlock) != 0));
    assert((x & rule_bit(Rule::Exit) != 0) == (y & rule_bit(Rule::Exit) != 0));
    assert((x & rule_bit(Rule::ResultCheck) != 0) == (y & rule_bit(Rule::ResultCheck) != 0));
    assert((x & rule_bit(Rule::ItemSpacing) != 0) == (y & rule_bit(Rule::ItemSpacing) != 0));
    assert((x & rule_bit(Rule::Layout) != 0) == (y & rule_bit(Rule::Layout) != 0));
    assert(x == y) by (bit_vector)
        requires
            x <= 0xff,
            y <= 0xff,
            (x & (1u16 << 0u8) != 0) == (y & (1u16 << 0u8) != 0),
            (x & (1u16 << 1u8) != 0) == (y & (1u16 << 1u8) != 0),
            (x & (1u16 << 2u8) != 0) == (y & (1u16 << 2u8) != 0),
            (x & (1u16 << 3u8) != 0) == (y & (1u16 << 3u8) != 0),
            (x & (1u16 << 4u8) != 0) == (y & (1u16 << 4u8) != 0),
            (x & (1u16 << 5u8) != 0) == (y & (1u16 << 5u8) != 0),
            (x & (1u16 << 6u8) != 0) == (y & (1u16 << 6u8) != 0),
            (x & (1u16 << 7u8) != 0) == (y & (1u16 << 7u8) != 0),
    ;
}

/// Two rules share a mask bit only if they are the same rule.
proof fn lemma_rule_index_injective(a: Rule, b: Rule)
    ensures
        (rule_index(a) == rule_index(b)) == (a == b),
{
}

impl RuleMask {
    /// Whether only the bits of the eight rules may be set.
    #[verifier::type_invariant]
    pub closed spec fn bounded(self) -> bool {
        self.0 <= 0xff
    }

    /// Includes every supported check.
    pub fn all() -> (mask: Self)
        ensures
            mask@ == Set::<Rule>::full(),
            mask.bounded(),
    {
        let mask = RuleMask(0xff);
        proof {
            assert forall|rule: Rule| #[trigger] mask@.contains(rule) by {
                lemma_mask_bits(0, 0, 0, rule_index(rule));
            }
            assert(mask@ =~= Set::<Rule>::full());
        }
        mask
    }

    /// Disables every check.
    pub fn none() -> (mask: Self)
        ensures
            mask@ == Set::<Rule>::empty(),
            mask.bounded(),
    {
        let mask = RuleMask(0);
        proof {
            assert forall|rule: Rule| !(#[trigger] mask@.contains(rule)) by {
                lemma_mask_bits(0, 0, 0, rule_index(rule));
            }
            assert(mask@ =~= Set::<Rule>::empty());
        }
        mask
    }

    /// Tests whether this check is enabled.
    pub fn has(self, rule: Rule) -> (enabled: bool)
        ensures
            enabled == self@.contains(rule),
    {
        self.0 & (1u16 << rule.index()) != 0
    }

    /// Returns a copy with the given check enabled.
    pub fn with(self, rule: Rule) -> (mask: Self)
        ensures
            mask@ == self@.insert(rule),
            mask.bounded(),
    {
        proof {
            use_type_invariant(&self);
            let a = self.0;
            let i = rule_index(rule);
            assert(a | (1u16 << i) <= 0xff) by (bit_vector)
                requires
                    a <= 0xff,
                    i < 8,
            ;
        }
        let mask = RuleMask(self.0 | (1u16 << rule.index()));
        proof {
            assert forall|other: Rule| #[trigger] mask@.contains(other) == self@.insert(
                rule,
            ).contains(other) by {
                lemma_mask_bits(self.0, 0, rule_index(rule), rule_index(other));
                lemma_rule_index_injective(rule, other);
            }
            assert(mask@ =~= self@.insert(rule));
        }
        mask
    }

    /// Returns a copy with the given check disabled.
    pub fn without(self, rule: Rule) -> (mask: Self)
        ensures
            mask@ == self@.remove(rule),
            mask.bounded(),
    {
        proof {
            use_type_invariant(&self);
            let a = self.0;
            let i = rule_index(rule);
            assert(a & !(1u16 << i) <= 0xff) by (bit_vector)
                requires
                    a <= 0xff,
            ;
        }
        let mask = RuleMask(self.0 & !(1u16 << rule.index()));
        proof {
            assert forall|other: Rule| #[trigger] mask@.contains(other) == self@.remove(
                rule,
            ).contains(other) by {
                lemma_mask_bits(self.0, 0, rule_index(rule), rule_index(other));
                lemma_rule_index_injective(rule, other);
            }
            assert(mask@ =~= self@.remove(rule));
        }
        mask
    }

    /// Keeps only checks enabled in both masks.
    pub fn intersect(self, other: Self) -> (mask: Self)
        ensures
            mask@ == self@.intersect(other@),
            mask.bounded(),
    {
        proof {
            use_type_invariant(&self);
            let a = self.0;
            let b = other.0;
            assert(a & b <= 0xff) by (bit_vector)
                requires
                    a <= 0xff,
            ;
        }
        let mask = RuleMask(self.0 & other.0);
        proof {
            assert forall|rule: Rule| #[trigger] mask@.contains(rule) == self@.intersect(
                other@,
            ).contains(rule) by {
                lemma_mask_bits(self.0, other.0, 0, rule_index(rule));
            }
            assert(mask@ =~= self@.intersect(other@));
        }
        mask
    }
}

impl Default for RuleMask {
    fn default() -> (mask: Self)
        ensures
            mask@ == Set::<Rule>::full(),
    {
        RuleMask::all()
    }
}

/// Half-open byte offsets into normalized UTF-8 source.
#[derive(Clone, Copy, Debug, Default, PartialEq, Eq, Structural, PartialOrd, Ord, Hash)]
pub struct ByteRange {
    /// Inclusive byte offset.
    pub start: usize,
    /// Exclusive byte offset.
    pub end: usize,
}

impl ByteRange {
    /// Constructs offsets without validating their order or source bounds.
    pub fn new(start: usize, end: usize) -> (range: Self)
        ensures
            range.start == start,
            range.end == end,
    {
        ByteRange { start, end }
    }

    /// Whether both bounds of `other` lie within `self`.
    pub open spec fn spec_contains(self, other: ByteRange) -> bool {
        self.start <= other.start && other.end <= self.end
    }

    /// Whether the interiors of the two ranges intersect.
    pub open spec fn spec_overlaps(self, other: ByteRange) -> bool {
        self.start < other.end && other.start < self.end
    }

    /// Tests whether both bounds of the other range lie within this range.
    pub fn contains(self, other: Self) -> (inside: bool)
        ensures
            inside == self.spec_contains(other),
    {
        self.start <= other.start && other.end <= self.end
    }

    /// Tests whether the ranges have intersecting interiors.
    pub fn overlaps(self, other: Self) -> (overlap: bool)
        ensures
            overlap == self.spec_overlaps(other),
    {
        self.start < other.end && other.start < self.end
    }

    /// Returns the equivalent standard half-open range.
    pub fn as_range(self) -> (range: core::ops::Range<usize>)
        ensures
            range.start == self.start,
            range.end == self.end,
    {
        self.start..self.end
    }
}

/// Containment is reflexive and transitive; overlap is symmetric, and a
/// non-empty range inside another overlaps it.
pub proof fn lemma_byte_range_laws(a: ByteRange, b: ByteRange, c: ByteRange)
    ensures
        a.spec_contains(a),
        a.spec_contains(b) && b.spec_contains(c) ==> a.spec_contains(c),
        a.spec_overlaps(b) == b.spec_overlaps(a),
        a.spec_contains(b) && b.start < b.end ==> a.spec_overlaps(b),
{
}

/// The value of a [`Place`]: root identity, projections and receiver flag.
pub struct PlaceView {
    /// Compiler identity of the root binding.
    pub local: Seq<char>,
    /// Ordered projections from the root binding.
    pub projections: Seq<Seq<char>>,
    /// Whether the root binding is the method receiver.
    pub is_self: bool,
}

/// A compiler-resolved local and syntactic place projections. This is not alias analysis.
#[derive(Debug, PartialEq, Eq, PartialOrd, Ord, Hash)]
pub struct Place {
    /// Compiler identity of the root binding, not its written name.
    pub local: String,
    /// Ordered field or place projections from the root binding.
    pub projections: Vec<String>,
    /// Whether the root binding is the method receiver.
    pub is_self: bool,
}

/// The character sequences of a list of strings.
pub open spec fn strings_view(strings: Seq<String>) -> Seq<Seq<char>> {
    strings.map_values(|s: String| s@)
}

impl View for Place {
    type V = PlaceView;

    open spec fn view(&self) -> PlaceView {
        PlaceView {
            local: self.local@,
            projections: strings_view(self.projections@),
            is_self: self.is_self,
        }
    }
}

/// Copies a list of strings.
pub fn clone_strings(strings: &Vec<String>) -> (copy: Vec<String>)
    ensures
        strings_view(copy@) == strings_view(strings@),
{
    let mut copy: Vec<String> = Vec::new();
    let mut i: usize = 0;
    while i < strings.len()
        invariant
            i <= strings.len(),
            copy@.len() == i,
            forall|k: int| 0 <= k < i ==> #[trigger] copy@[k]@ == strings@[k]@,
        decreases strings.len() - i,
    {
        copy.push(strings[i].clone());
        i = i + 1;
    }
    assert(strings_view(copy@) =~= strings_view(strings@));
    copy
}

impl Clone for Place {
    fn clone(&self) -> (copy: Self)
        ensures
            copy@ == self@,
    {
        Place {
            local: self.local.clone(),
            projections: clone_strings(&self.projections),
            is_self: self.is_self,
        }
    }
}

impl Place {
    /// Constructs an unprojected local with the supplied compiler identity.
    pub fn local(id: &str) -> (place: Self)
        ensures
            place.local@ == id@,
            place.projections@.len() == 0,
            !place.is_self,
    {
        Place { local: String::from_str(id), projections: Vec::new(), is_self: false }
    }
}

/// The values of a list of places.
pub open spec fn places_view(places: Seq<Place>) -> Seq<PlaceView> {
    places.map_values(|p: Place| p@)
}

/// Copies a list of places.
pub fn clone_places(places: &Vec<Place>) -> (copy: Vec<Place>)
    ensures
        places_view(copy@) == places_view(places@),
{
    let mut copy: Vec<Place> = Vec::new();
    let mut i: usize = 0;
    while i < places.len()
        invariant
            i <= places.len(),
            copy@.len() == i,
            forall|k: int| 0 <= k < i ==> #[trigger] copy@[k]@ == places@[k]@,
        decreases places.len() - i,
    {
        copy.push(places[i].clone());
        i = i + 1;
    }
    assert(places_view(copy@) =~= places_view(places@));
    copy
}

/// Whether no place occurs twice in a sequence of places.
pub open spec fn no_repeats(places: Seq<PlaceView>) -> bool {
    forall|j: int, k: int| 0 <= j < k < places.len() ==> places[j] != places[k]
}

/// Compiler facts about one source unit; unknown facts do not imply independence.
///
/// Each list of places is an unordered collection: only membership matters.
/// The facts that [`crate::syntax::semantics::SemanticIndex::facts`] gathers
/// hold no place twice in a list.
#[derive(Debug)]
pub struct Facts {
    /// Whether the adapter has sufficient facts to compare this unit.
    pub known: bool,
    /// Local bindings introduced by this unit.
    pub definitions: Vec<Place>,
    /// Places read by this unit, excluding deferred bodies.
    pub reads: Vec<Place>,
    /// Places assigned or exposed through a mutable reference/raw address by this unit.
    pub writes: Vec<Place>,
    /// Places used as method receivers.
    pub receivers: Vec<Place>,
    /// Method receivers compiler-adjusted to a mutable reference, not proven assignment writes.
    pub mutating_receivers: Vec<Place>,
    /// Compiler identities of direct source callees, excluding nested and deferred calls.
    pub direct_callees: Vec<String>,
    /// Places read in a control-flow header.
    pub header_reads: Vec<Place>,
    /// Places read by the first executable body statement.
    pub first_body_reads: Vec<Place>,
    /// Places read throughout the unit, excluding deferred bodies.
    pub whole_body_reads: Vec<Place>,
    /// Set only for a narrow compiler-confirmed standard Result/Option inspection.
    pub check_of: Option<Place>,
}

/// The value of [`Facts`], with every place taken by its value.
pub struct FactsView {
    /// See [`Facts::known`].
    pub known: bool,
    /// See [`Facts::definitions`].
    pub definitions: Seq<PlaceView>,
    /// See [`Facts::reads`].
    pub reads: Seq<PlaceView>,
    /// See [`Facts::writes`].
    pub writes: Seq<PlaceView>,
    /// See [`Facts::receivers`].
    pub receivers: Seq<PlaceView>,
    /// See [`Facts::mutating_receivers`].
    pub mutating_receivers: Seq<PlaceView>,
    /// See [`Facts::direct_callees`].
    pub direct_callees: Seq<Seq<char>>,
    /// See [`Facts::header_reads`].
    pub header_reads: Seq<PlaceView>,
    /// See [`Facts::first_body_reads`].
    pub first_body_reads: Seq<PlaceView>,
    /// See [`Facts::whole_body_reads`].
    pub whole_body_reads: Seq<PlaceView>,
    /// See [`Facts::check_of`].
    pub check_of: Option<PlaceView>,
}

/// The value of an optional place.
pub open spec fn option_place_view(place: Option<Place>) -> Option<PlaceView> {
    match place {
        Some(p) => Some(p@),
        None => None,
    }
}

impl View for Facts {
    type V = FactsView;

    open spec fn view(&self) -> FactsView {
        FactsView {
            known: self.known,
            definitions: places_view(self.definitions@),
            reads: places_view(self.reads@),
            writes: places_view(self.writes@),
            receivers: places_view(self.receivers@),
            mutating_receivers: places_view(self.mutating_receivers@),
            direct_callees: strings_view(self.direct_callees@),
            header_reads: places_view(self.header_reads@),
            first_body_reads: places_view(self.first_body_reads@),
            whole_body_reads: places_view(self.whole_body_reads@),
            check_of: option_place_view(self.check_of),
        }
    }
}

impl Clone for Facts {
    fn clone(&self) -> (copy: Self)
        ensures
            copy@ == self@,
    {
        let check_of = match &self.check_of {
            Some(place) => Some(place.clone()),
            None => None,
        };
        Facts {
            known: self.known,
            definitions: clone_places(&self.definitions),
            reads: clone_places(&self.reads),
            writes: clone_places(&self.writes),
            receivers: clone_places(&self.receivers),
            mutating_receivers: clone_places(&self.mutating_receivers),
            direct_callees: clone_strings(&self.direct_callees),
            header_reads: clone_places(&self.header_reads),
            first_body_reads: clone_places(&self.first_body_reads),
            whole_body_reads: clone_places(&self.whole_body_reads),
            check_of,
        }
    }
}

impl Default for Facts {
    fn default() -> (facts: Self)
        ensures
            !facts.known,
            facts.definitions@.len() == 0,
            facts.reads@.len() == 0,
            facts.writes@.len() == 0,
            facts.receivers@.len() == 0,
            facts.mutating_receivers@.len() == 0,
            facts.direct_callees@.len() == 0,
            facts.header_reads@.len() == 0,
            facts.first_body_reads@.len() == 0,
            facts.whole_body_reads@.len() == 0,
            facts.check_of.is_none(),
    {
        Facts {
            known: false,
            definitions: Vec::new(),
            reads: Vec::new(),
            writes: Vec::new(),
            receivers: Vec::new(),
            mutating_receivers: Vec::new(),
            direct_callees: Vec::new(),
            header_reads: Vec::new(),
            first_body_reads: Vec::new(),
            whole_body_reads: Vec::new(),
            check_of: None,
        }
    }
}

/// Declaration categories with distinct spacing policies.
#[derive(Clone, Copy, Debug, PartialEq, Eq, Structural)]
pub enum ItemKind {
    /// Function or method with a body.
    Function,
    /// Major declaration such as a struct or implementation.
    Major,
    /// Compact declaration of no family below, such as a function without a body.
    Compact,
    /// Import: `use` or `extern crate`.
    Import,
    /// Constant or static.
    Constant,
    /// Module declared without a body.
    Module,
    /// Type alias.
    Alias,
    /// Syntax whose interior is not analyzed.
    Opaque,
}

/// Whether an item kind is a compact declaration of some family.
pub open spec fn declaration(kind: ItemKind) -> bool {
    matches!(kind, ItemKind::Compact | ItemKind::Import | ItemKind::Constant | ItemKind::Module | ItemKind::Alias)
}

/// Syntactic role of a direct sibling in a statement or item list.
#[derive(Clone, Copy, Debug, PartialEq, Eq, Structural)]
pub enum UnitKind {
    /// Local binding declaration.
    Let,
    /// Assignment to an existing place.
    Assignment,
    /// Ordinary expression statement or tail value.
    Expression,
    /// Conditional, loop, or match expression.
    Control,
    /// Standalone scope block.
    Block,
    /// Standalone unsafe scope, commonly wrapping an individual FFI operation.
    UnsafeBlock,
    /// Explicit control-flow exit.
    Exit,
    /// Item declaration with its spacing category.
    Item(ItemKind),
    /// Syntax whose interior is not analyzed.
    Opaque,
}

impl UnitKind {
    /// Whether this unit introduces or assigns a binding.
    pub open spec fn spec_is_binding(self) -> bool {
        self is Let || self is Assignment
    }

    /// Whether this unit is an item declaration.
    pub open spec fn spec_is_item(self) -> bool {
        self is Item
    }

    /// Whether this is a standalone control-flow or scope block.
    pub open spec fn spec_ends_block(self) -> bool {
        self is Control || self is Block || self is UnsafeBlock
    }

    /// Whether ordinary binding/expression grouping applies.
    pub open spec fn spec_ordinary(self) -> bool {
        self is Let || self is Assignment || self is Expression
    }

    /// Whether this unit introduces or assigns a binding.
    pub fn is_binding(self) -> (b: bool)
        ensures
            b == self.spec_is_binding(),
    {
        matches!(self, UnitKind::Let | UnitKind::Assignment)
    }

    /// Whether this unit is an item declaration.
    pub fn is_item(self) -> (b: bool)
        ensures
            b == self.spec_is_item(),
    {
        matches!(self, UnitKind::Item(_))
    }

    /// Whether this is a standalone control-flow or scope block.
    pub fn ends_block(self) -> (b: bool)
        ensures
            b == self.spec_ends_block(),
    {
        matches!(self, UnitKind::Control | UnitKind::Block | UnitKind::UnsafeBlock)
    }

    /// Whether ordinary binding/expression grouping applies.
    pub fn ordinary(self) -> (b: bool)
        ensures
            b == self.spec_ordinary(),
    {
        matches!(self, UnitKind::Let | UnitKind::Assignment | UnitKind::Expression)
    }
}

/// One direct source sibling and its compiler annotations.
#[derive(Debug)]
pub struct Unit {
    /// Syntax node including its attached attributes and documentation.
    pub range: ByteRange,
    /// Code span used for compiler matching, excluding attached attributes and docs.
    pub code_range: ByteRange,
    /// Syntactic category used to select spacing policy.
    pub kind: UnitKind,
    /// Whether this expression is the enclosing block value.
    pub is_tail: bool,
    /// Whether this control-flow unit is a short exiting guard.
    pub is_guard: bool,
    /// Whether this is a for loop with no executable body statements.
    pub is_empty_loop: bool,
    /// Whether this is a break or continue without a value.
    pub is_loop_exit: bool,
    /// Whether this is a return without a value.
    pub is_bare_return: bool,
    /// The compiler has mapped this original syntax node to active source.
    pub active: bool,
    /// Whether this unit must preserve its existing spacing.
    pub protected: bool,
    /// Resolved reads, writes, and relationships for this unit.
    pub facts: Facts,
    /// Checks enabled at this compiler node.
    pub enabled: RuleMask,
    /// Opaque key returned to the compiler adapter for correctly scoped diagnostics.
    pub anchor: usize,
}

impl Clone for Unit {
    fn clone(&self) -> (copy: Self)
        ensures
            copy.range == self.range,
            copy.code_range == self.code_range,
            copy.kind == self.kind,
            copy.is_tail == self.is_tail,
            copy.is_guard == self.is_guard,
            copy.is_empty_loop == self.is_empty_loop,
            copy.is_loop_exit == self.is_loop_exit,
            copy.is_bare_return == self.is_bare_return,
            copy.active == self.active,
            copy.protected == self.protected,
            copy.facts@ == self.facts@,
            copy.enabled == self.enabled,
            copy.anchor == self.anchor,
    {
        Unit {
            range: self.range,
            code_range: self.code_range,
            kind: self.kind,
            is_tail: self.is_tail,
            is_guard: self.is_guard,
            is_empty_loop: self.is_empty_loop,
            is_loop_exit: self.is_loop_exit,
            is_bare_return: self.is_bare_return,
            active: self.active,
            protected: self.protected,
            facts: self.facts.clone(),
            enabled: self.enabled,
            anchor: self.anchor,
        }
    }
}

/// Whitespace boundary between two direct siblings.
#[derive(Clone, Copy, Debug, PartialEq, Eq, Structural)]
pub struct Gap {
    /// Editable trivia only; this range never includes an attached comment.
    pub range: ByteRange,
    /// Number of empty lines between the siblings.
    pub blank_lines: usize,
    /// Whether the boundary contains a line break.
    pub vertical: bool,
    /// Whether this gap must preserve its existing spacing.
    pub protected: bool,
    /// Whether adjacency can be established without crossing attached comments.
    pub joinable: bool,
}

/// Ordered direct siblings in one statement or item container.
#[derive(Debug)]
pub struct UnitList {
    /// Direct siblings in source order.
    pub units: Vec<Unit>,
    /// `gaps[i]` separates `units[i]` from `units[i + 1]`.
    pub gaps: Vec<Gap>,
    /// Direct executable units, including a tail expression but excluding items.
    pub executable_count: usize,
    /// Whether this container holds declarations rather than statements.
    pub item_list: bool,
}

/// All source containers and eligible block-edge whitespace in a file.
#[derive(Debug)]
pub struct SourceModel {
    /// Statement and item containers, including nested containers.
    pub lists: Vec<UnitList>,
    /// Edges where excess blank lines can be removed without touching comments.
    pub layout_edges: Vec<(ByteRange, usize)>,
}

impl Default for SourceModel {
    fn default() -> (model: Self)
        ensures
            model.lists@.len() == 0,
            model.layout_edges@.len() == 0,
    {
        SourceModel { lists: Vec::new(), layout_edges: Vec::new() }
    }
}

} // verus!
