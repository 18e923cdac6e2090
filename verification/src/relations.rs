//! Relationships between resolved local places.
use vstd::prelude::*;

use crate::config::{Grouping, SelfFields, UseIn};
use crate::model::{clone_places, places_view, Facts, FactsView, Place, PlaceView};

verus! {

/// Whether two units have a known semantic connection.
#[derive(Clone, Copy, Debug, PartialEq, Eq, Structural)]
pub enum Relationship {
    /// A producer, receiver, or shared-input connection exists.
    Related,
    /// Facts are known and no configured connection exists.
    Unrelated,
    /// At least one unit lacks sufficient compiler facts.
    Unknown,
}

/// Whether the projection list `a` begins with the projection list `b`.
pub open spec fn starts_with(a: Seq<Seq<char>>, b: Seq<Seq<char>>) -> bool {
    b.len() <= a.len() && a.subrange(0, b.len() as int) == b
}

/// Whether two places may denote overlapping storage under the `self` projection policy.
///
/// Places relate only through the same root; `self` projections all relate under
/// the root policy, and otherwise one projection path must extend the other.
pub open spec fn spec_places_overlap(a: PlaceView, b: PlaceView, mode: SelfFields) -> bool {
    a.local == b.local && ((mode == SelfFields::Root && a.is_self && b.is_self) || starts_with(
        a.projections,
        b.projections,
    ) || starts_with(b.projections, a.projections))
}

/// Whether some place of `a` overlaps some place of `b`.
pub open spec fn spec_intersects(a: Seq<PlaceView>, b: Seq<PlaceView>, mode: SelfFields) -> bool {
    exists|i: int, j: int|
        0 <= i < a.len() && 0 <= j < b.len() && #[trigger] spec_places_overlap(a[i], b[j], mode)
}

/// Places this unit defines or writes.
pub open spec fn spec_outputs(facts: FactsView) -> Seq<PlaceView> {
    facts.definitions + facts.writes
}

/// Whether `a` defines or writes a place that `b` reads, with both facts known.
pub open spec fn spec_direct_producer(a: FactsView, b: FactsView, settings: Grouping) -> bool {
    a.known && b.known && spec_intersects(spec_outputs(a), b.reads, settings.self_fields)
}

/// Places through which a unit touches an aggregate: writes, and reads and
/// receivers where the corresponding relationship is enabled.
pub open spec fn spec_object_accesses(facts: FactsView, settings: Grouping) -> Seq<PlaceView> {
    facts.writes + (if settings.shared_inputs {
        facts.reads
    } else {
        Seq::empty()
    }) + (if settings.same_receiver {
        facts.receivers
    } else {
        Seq::empty()
    })
}

/// Whether two accessed places belong to the same non-`self` object, or overlap
/// when either is rooted at `self`.
pub open spec fn spec_same_root(a: PlaceView, b: PlaceView, mode: SelfFields) -> bool {
    a.local == b.local && (!(a.is_self || b.is_self) || spec_places_overlap(a, b, mode))
}

/// Whether the two units access the same object.
pub open spec fn spec_same_object(a: FactsView, b: FactsView, settings: Grouping) -> bool {
    let x = spec_object_accesses(a, settings);
    let y = spec_object_accesses(b, settings);
    exists|i: int, j: int|
        0 <= i < x.len() && 0 <= j < y.len() && #[trigger] spec_same_root(
            x[i],
            y[j],
            settings.self_fields,
        )
}

/// Whether the unit writes or mutably borrows a receiver.
pub open spec fn spec_mutates(facts: FactsView) -> bool {
    facts.writes.len() > 0 || facts.mutating_receivers.len() > 0
}

/// Whether the two callee lists name a common callee.
pub open spec fn spec_shares_callee(a: Seq<Seq<char>>, b: Seq<Seq<char>>) -> bool {
    exists|i: int, j: int| 0 <= i < a.len() && 0 <= j < b.len() && #[trigger] a[i] == #[trigger] b[j]
}

/// Whether the configured relationships connect two units with known facts.
pub open spec fn spec_related(a: FactsView, b: FactsView, settings: Grouping) -> bool {
    let mode = settings.self_fields;
    ||| spec_direct_producer(a, b, settings)
    ||| spec_intersects(spec_outputs(b), a.reads, mode)
    ||| (settings.same_receiver && spec_intersects(a.receivers, b.receivers, mode))
    ||| (settings.shared_inputs && spec_intersects(a.reads, b.reads, mode))
    ||| (settings.same_object && spec_same_object(a, b, settings))
    ||| (settings.same_callee && spec_shares_callee(a.direct_callees, b.direct_callees))
    ||| (settings.consecutive_mutations && spec_mutates(a) && spec_mutates(b))
}

/// The relationship between two units.
pub open spec fn spec_relationship(a: FactsView, b: FactsView, settings: Grouping) -> Relationship {
    if !a.known || !b.known {
        Relationship::Unknown
    } else if spec_related(a, b, settings) {
        Relationship::Related
    } else {
        Relationship::Unrelated
    }
}

/// Reads that associate setup with a control-flow unit under the `use_in` policy.
pub open spec fn spec_control_inputs(facts: FactsView, mode: UseIn) -> Seq<PlaceView> {
    match mode {
        UseIn::Header => facts.header_reads,
        UseIn::HeaderOrFirstBodyStatement => facts.header_reads + facts.first_body_reads,
        UseIn::WholeBody => facts.header_reads + facts.whole_body_reads,
    }
}

/// Whether the projection list `a` begins with the projection list `b`.
fn projections_start_with(a: &Vec<String>, b: &Vec<String>) -> (result: bool)
    ensures
        result == starts_with(
            crate::model::strings_view(a@),
            crate::model::strings_view(b@),
        ),
{
    let ghost av = crate::model::strings_view(a@);
    let ghost bv = crate::model::strings_view(b@);
    if b.len() > a.len() {
        return false;
    }
    let mut i: usize = 0;
    while i < b.len()
        invariant
            b@.len() <= a@.len(),
            i <= b@.len(),
            av == crate::model::strings_view(a@),
            bv == crate::model::strings_view(b@),
            forall|k: int| 0 <= k < i ==> av[k] == bv[k],
        decreases b@.len() - i,
    {
        if !(a[i] == b[i]) {
            assert(av.subrange(0, bv.len() as int)[i as int] != bv[i as int]);
            return false;
        }
        i = i + 1;
    }
    assert(av.subrange(0, bv.len() as int) =~= bv);
    true
}

/// Whether two places may denote overlapping storage.
pub fn places_overlap(a: &Place, b: &Place, mode: SelfFields) -> (overlap: bool)
    ensures
        overlap == spec_places_overlap(a@, b@, mode),
{
    if !(a.local == b.local) {
        return false;
    }
    if mode == SelfFields::Root && a.is_self && b.is_self {
        return true;
    }
    // Writing/reading an aggregate can relate to one of its fields. Distinct
    // siblings do not relate merely because they have the same aggregate root.
    projections_start_with(&a.projections, &b.projections) || projections_start_with(
        &b.projections,
        &a.projections,
    )
}

/// Whether some place of `a` overlaps some place of `b`.
pub fn intersects(a: &Vec<Place>, b: &Vec<Place>, mode: SelfFields) -> (found: bool)
    ensures
        found == spec_intersects(places_view(a@), places_view(b@), mode),
{
    let ghost av = places_view(a@);
    let ghost bv = places_view(b@);
    let mut i: usize = 0;
    while i < a.len()
        invariant
            i <= a@.len(),
            av == places_view(a@),
            bv == places_view(b@),
            forall|x: int, y: int|
                0 <= x < i && 0 <= y < bv.len() ==> !#[trigger] spec_places_overlap(
                    av[x],
                    bv[y],
                    mode,
                ),
        decreases a@.len() - i,
    {
        let mut j: usize = 0;
        while j < b.len()
            invariant
                i < a@.len(),
                j <= b@.len(),
                av == places_view(a@),
                bv == places_view(b@),
                forall|x: int, y: int|
                    0 <= x < i && 0 <= y < bv.len() ==> !#[trigger] spec_places_overlap(
                        av[x],
                        bv[y],
                        mode,
                    ),
                forall|y: int| 0 <= y < j ==> !#[trigger] spec_places_overlap(av[i as int], bv[y], mode),
            decreases b@.len() - j,
        {
            if places_overlap(&a[i], &b[j], mode) {
                assert(spec_places_overlap(av[i as int], bv[j as int], mode));
                return true;
            }
            j = j + 1;
        }
        i = i + 1;
    }
    false
}

/// Places this unit defines or writes.
pub fn outputs(facts: &Facts) -> (places: Vec<Place>)
    ensures
        places_view(places@) == spec_outputs(facts@),
{
    let mut places = clone_places(&facts.definitions);
    let mut writes = clone_places(&facts.writes);
    let ghost left = places@;
    let ghost right = writes@;
    places.append(&mut writes);
    proof {
        assert(places@ == left + right);
        assert(places_view(places@) =~= places_view(left) + places_view(right));
    }
    places
}

/// Whether `a` defines or writes a place that `b` reads, with both facts known.
pub fn direct_producer(a: &Facts, b: &Facts, settings: &Grouping) -> (producer: bool)
    ensures
        producer == spec_direct_producer(a@, b@, *settings),
{
    a.known && b.known && intersects(&outputs(a), &b.reads, settings.self_fields)
}

/// The places through which a unit touches an aggregate.
fn object_accesses(facts: &Facts, settings: &Grouping) -> (places: Vec<Place>)
    ensures
        places_view(places@) == spec_object_accesses(facts@, *settings),
{
    let mut places = clone_places(&facts.writes);
    let ghost first = places@;
    let mut reads = if settings.shared_inputs {
        clone_places(&facts.reads)
    } else {
        Vec::new()
    };
    let ghost second = reads@;
    places.append(&mut reads);
    let ghost both = places@;
    let mut receivers = if settings.same_receiver {
        clone_places(&facts.receivers)
    } else {
        Vec::new()
    };
    let ghost third = receivers@;
    places.append(&mut receivers);
    proof {
        assert(both == first + second);
        assert(places@ == both + third);
        assert(places_view(places@) =~= places_view(first) + places_view(second) + places_view(
            third,
        ));
        assert(places_view(second) =~= (if settings.shared_inputs {
            facts@.reads
        } else {
            Seq::empty()
        }));
        assert(places_view(third) =~= (if settings.same_receiver {
            facts@.receivers
        } else {
            Seq::empty()
        }));
    }
    places
}

/// Whether two places share an object root in the sense of [`spec_same_root`].
fn same_root(a: &Place, b: &Place, mode: SelfFields) -> (same: bool)
    ensures
        same == spec_same_root(a@, b@, mode),
{
    a.local == b.local && (!(a.is_self || b.is_self) || places_overlap(a, b, mode))
}

/// Whether the two units access the same object.
fn same_object(a: &Facts, b: &Facts, settings: &Grouping) -> (same: bool)
    ensures
        same == spec_same_object(a@, b@, *settings),
{
    let x = object_accesses(a, settings);
    let y = object_accesses(b, settings);
    let ghost xv = places_view(x@);
    let ghost yv = places_view(y@);
    let mut i: usize = 0;
    while i < x.len()
        invariant
            i <= x@.len(),
            xv == places_view(x@),
            yv == places_view(y@),
            xv == spec_object_accesses(a@, *settings),
            yv == spec_object_accesses(b@, *settings),
            forall|p: int, q: int|
                0 <= p < i && 0 <= q < yv.len() ==> !#[trigger] spec_same_root(
                    xv[p],
                    yv[q],
                    settings.self_fields,
                ),
        decreases x@.len() - i,
    {
        let mut j: usize = 0;
        while j < y.len()
            invariant
                i < x@.len(),
                j <= y@.len(),
                xv == places_view(x@),
                yv == places_view(y@),
                xv == spec_object_accesses(a@, *settings),
                yv == spec_object_accesses(b@, *settings),
                forall|p: int, q: int|
                    0 <= p < i && 0 <= q < yv.len() ==> !#[trigger] spec_same_root(
                        xv[p],
                        yv[q],
                        settings.self_fields,
                    ),
                forall|q: int|
                    0 <= q < j ==> !#[trigger] spec_same_root(
                        xv[i as int],
                        yv[q],
                        settings.self_fields,
                    ),
            decreases y@.len() - j,
        {
            if same_root(&x[i], &y[j], settings.self_fields) {
                assert(spec_same_root(xv[i as int], yv[j as int], settings.self_fields));
                return true;
            }
            j = j + 1;
        }
        i = i + 1;
    }
    false
}

/// Whether the unit writes or mutably borrows a receiver.
fn mutates(facts: &Facts) -> (m: bool)
    ensures
        m == spec_mutates(facts@),
{
    facts.writes.len() > 0 || facts.mutating_receivers.len() > 0
}

/// Whether the two callee lists name a common callee.
fn shares_callee(a: &Vec<String>, b: &Vec<String>) -> (shared: bool)
    ensures
        shared == spec_shares_callee(crate::model::strings_view(a@), crate::model::strings_view(b@)),
{
    let ghost av = crate::model::strings_view(a@);
    let ghost bv = crate::model::strings_view(b@);
    let mut i: usize = 0;
    while i < a.len()
        invariant
            i <= a@.len(),
            av == crate::model::strings_view(a@),
            bv == crate::model::strings_view(b@),
            forall|p: int, q: int| 0 <= p < i && 0 <= q < bv.len() ==> #[trigger] av[p] != #[trigger] bv[q],
        decreases a@.len() - i,
    {
        let mut j: usize = 0;
        while j < b.len()
            invariant
                i < a@.len(),
                j <= b@.len(),
                av == crate::model::strings_view(a@),
                bv == crate::model::strings_view(b@),
                forall|p: int, q: int| 0 <= p < i && 0 <= q < bv.len() ==> #[trigger] av[p] != #[trigger] bv[q],
                forall|q: int| 0 <= q < j ==> av[i as int] != #[trigger] bv[q],
            decreases b@.len() - j,
        {
            if a[i] == b[j] {
                assert(av[i as int] == bv[j as int]);
                return true;
            }
            j = j + 1;
        }
        i = i + 1;
    }
    false
}

/// Classifies the relationship between two units under the grouping policy.
pub fn relationship(a: &Facts, b: &Facts, settings: &Grouping) -> (r: Relationship)
    ensures
        r == spec_relationship(a@, b@, *settings),
{
    if !a.known || !b.known {
        return Relationship::Unknown;
    }
    let mode = settings.self_fields;
    if direct_producer(a, b, settings) || intersects(&outputs(b), &a.reads, mode) || (
    settings.same_receiver && intersects(&a.receivers, &b.receivers, mode)) || (
    settings.shared_inputs && intersects(&a.reads, &b.reads, mode)) || (settings.same_object
        && same_object(a, b, settings)) || (settings.same_callee && shares_callee(
        &a.direct_callees,
        &b.direct_callees,
    )) || (settings.consecutive_mutations && mutates(a) && mutates(b)) {
        Relationship::Related
    } else {
        Relationship::Unrelated
    }
}

/// Reads that associate setup with a control-flow unit under the `use_in` policy.
pub fn control_inputs(facts: &Facts, mode: UseIn) -> (inputs: Vec<Place>)
    ensures
        places_view(inputs@) == spec_control_inputs(facts@, mode),
{
    let mut inputs = clone_places(&facts.header_reads);
    let ghost head = inputs@;
    let mut extra = match mode {
        UseIn::Header => Vec::new(),
        UseIn::HeaderOrFirstBodyStatement => clone_places(&facts.first_body_reads),
        UseIn::WholeBody => clone_places(&facts.whole_body_reads),
    };
    let ghost rest = extra@;
    inputs.append(&mut extra);
    proof {
        assert(inputs@ == head + rest);
        assert(places_view(inputs@) =~= places_view(head) + places_view(rest));
        if mode == UseIn::Header {
            assert(places_view(rest) =~= Seq::<PlaceView>::empty());
            assert(places_view(inputs@) =~= facts@.header_reads);
        }
    }
    inputs
}

/// Whether `fewer` relates units by some of the relationships that `more` uses,
/// with the same matching of `self` fields.
pub open spec fn fewer_relations(fewer: Grouping, more: Grouping) -> bool {
    &&& fewer.self_fields == more.self_fields
    &&& fewer.same_receiver ==> more.same_receiver
    &&& fewer.shared_inputs ==> more.shared_inputs
    &&& fewer.same_object ==> more.same_object
    &&& fewer.same_callee ==> more.same_callee
    &&& fewer.consecutive_mutations ==> more.consecutive_mutations
}

/// With fewer relationships, a unit touches an aggregate through some of the
/// places it touches it through with more.
proof fn lemma_accesses_within(facts: FactsView, fewer: Grouping, more: Grouping)
    requires
        fewer_relations(fewer, more),
    ensures
        forall|i: int|
            0 <= i < spec_object_accesses(facts, fewer).len() ==> spec_object_accesses(facts, more).contains(
                #[trigger] spec_object_accesses(facts, fewer)[i],
            ),
{
    let x = spec_object_accesses(facts, fewer);
    let y = spec_object_accesses(facts, more);
    let w = facts.writes.len();
    let rf = if fewer.shared_inputs { facts.reads.len() } else { 0 };
    let rm = if more.shared_inputs { facts.reads.len() } else { 0 };
    assert forall|i: int| 0 <= i < x.len() implies y.contains(#[trigger] x[i]) by {
        if i < w {
            assert(y[i] == x[i]);
        } else if i < w + rf {
            assert(y[i] == x[i]);
        } else {
            assert(y[i - rf + rm] == x[i]);
        }
    }
}

/// Turning relationships off never relates units that were unrelated: when
/// `fewer` uses some of the relationships of `more`, two units unrelated under
/// `more` are unrelated under `fewer`.
pub proof fn lemma_fewer_relations_keep_unrelated(a: FactsView, b: FactsView, fewer: Grouping, more: Grouping)
    requires
        fewer_relations(fewer, more),
        spec_relationship(a, b, more) == Relationship::Unrelated,
    ensures
        spec_relationship(a, b, fewer) == Relationship::Unrelated,
{
    if fewer.same_object && spec_same_object(a, b, fewer) {
        let mode = fewer.self_fields;
        let x = spec_object_accesses(a, fewer);
        let y = spec_object_accesses(b, fewer);
        let (i, j) = choose|i: int, j: int|
            0 <= i < x.len() && 0 <= j < y.len() && #[trigger] spec_same_root(x[i], y[j], mode);
        lemma_accesses_within(a, fewer, more);
        lemma_accesses_within(b, fewer, more);
        assert(spec_object_accesses(a, more).contains(x[i]));
        assert(spec_object_accesses(b, more).contains(y[j]));
        let k = choose|k: int| 0 <= k < spec_object_accesses(a, more).len() && spec_object_accesses(a, more)[k] == x[i];
        let m = choose|m: int| 0 <= m < spec_object_accesses(b, more).len() && spec_object_accesses(b, more)[m] == y[j];
        assert(spec_same_root(spec_object_accesses(a, more)[k], spec_object_accesses(b, more)[m], more.self_fields));
        assert(spec_same_object(a, b, more));
    }
}

/// Place overlap is symmetric.
pub proof fn lemma_places_overlap_symmetric(a: PlaceView, b: PlaceView, mode: SelfFields)
    ensures
        spec_places_overlap(a, b, mode) == spec_places_overlap(b, a, mode),
{
}

/// Intersection of place collections is symmetric.
pub proof fn lemma_intersects_symmetric(a: Seq<PlaceView>, b: Seq<PlaceView>, mode: SelfFields)
    ensures
        spec_intersects(a, b, mode) == spec_intersects(b, a, mode),
{
    if spec_intersects(a, b, mode) {
        let (i, j) = choose|i: int, j: int|
            0 <= i < a.len() && 0 <= j < b.len() && #[trigger] spec_places_overlap(a[i], b[j], mode);
        assert(spec_places_overlap(b[j], a[i], mode));
    }
    if spec_intersects(b, a, mode) {
        let (i, j) = choose|i: int, j: int|
            0 <= i < b.len() && 0 <= j < a.len() && #[trigger] spec_places_overlap(b[i], a[j], mode);
        assert(spec_places_overlap(a[j], b[i], mode));
    }
}

/// The relationship between two units does not depend on their order.
pub proof fn lemma_relationship_symmetric(a: FactsView, b: FactsView, settings: Grouping)
    ensures
        spec_relationship(a, b, settings) == spec_relationship(b, a, settings),
{
    let mode = settings.self_fields;
    lemma_intersects_symmetric(spec_outputs(a), b.reads, mode);
    lemma_intersects_symmetric(spec_outputs(b), a.reads, mode);
    lemma_intersects_symmetric(a.receivers, b.receivers, mode);
    lemma_intersects_symmetric(a.reads, b.reads, mode);
    let x = spec_object_accesses(a, settings);
    let y = spec_object_accesses(b, settings);
    if spec_same_object(a, b, settings) {
        let (i, j) = choose|i: int, j: int|
            0 <= i < x.len() && 0 <= j < y.len() && #[trigger] spec_same_root(x[i], y[j], mode);
        assert(spec_same_root(y[j], x[i], mode));
    }
    if spec_same_object(b, a, settings) {
        let (i, j) = choose|i: int, j: int|
            0 <= i < y.len() && 0 <= j < x.len() && #[trigger] spec_same_root(y[i], x[j], mode);
        assert(spec_same_root(x[j], y[i], mode));
    }
    if spec_shares_callee(a.direct_callees, b.direct_callees) {
        let (i, j) = choose|i: int, j: int|
            0 <= i < a.direct_callees.len() && 0 <= j < b.direct_callees.len()
                && #[trigger] a.direct_callees[i] == #[trigger] b.direct_callees[j];
        assert(b.direct_callees[j] == a.direct_callees[i]);
    }
    if spec_shares_callee(b.direct_callees, a.direct_callees) {
        let (i, j) = choose|i: int, j: int|
            0 <= i < b.direct_callees.len() && 0 <= j < a.direct_callees.len()
                && #[trigger] b.direct_callees[i] == #[trigger] a.direct_callees[j];
        assert(a.direct_callees[j] == b.direct_callees[i]);
    }
}

/// Whether two places are the same place.
pub fn same_place(a: &Place, b: &Place) -> (same: bool)
    ensures
        same == (a@ == b@),
{
    let same = a.local == b.local && a.is_self == b.is_self && a.projections.len()
        == b.projections.len() && projections_start_with(&a.projections, &b.projections);
    proof {
        if same {
            assert(a@.projections =~= b@.projections);
            assert(a@ == b@);
        }
        if a@ == b@ {
            assert(a@.projections.len() == b@.projections.len());
            assert(a@.projections.subrange(0, b@.projections.len() as int) =~= b@.projections);
        }
    }
    same
}

/// Whether `places` holds `place`.
pub fn contains_place(places: &Vec<Place>, place: &Place) -> (found: bool)
    ensures
        found == places_view(places@).contains(place@),
{
    let mut i: usize = 0;
    while i < places.len()
        invariant
            i <= places@.len(),
            forall|k: int| 0 <= k < i ==> #[trigger] places@[k]@ != place@,
        decreases places@.len() - i,
    {
        if same_place(&places[i], place) {
            assert(places_view(places@)[i as int] == place@);
            return true;
        }
        i = i + 1;
    }
    proof {
        if places_view(places@).contains(place@) {
            let k = choose|k: int| 0 <= k < places_view(places@).len() && places_view(places@)[k] == place@;
            assert(places@[k]@ == place@);
        }
    }
    false
}

/// An aggregate and any of its fields overlap: two places with the same root
/// overlap, in either order, whenever one projection path is a prefix of the
/// other, whatever the `self` policy; places with different roots never do;
/// under the root policy two `self` places always do; otherwise places whose
/// paths part at some projection (sibling fields) do not.
pub proof fn lemma_aggregate_overlaps_field(a: PlaceView, b: PlaceView, mode: SelfFields)
    ensures
        a.local == b.local && a.projections.len() <= b.projections.len() && (forall|k: int|
            0 <= k < a.projections.len() ==> a.projections[k] == b.projections[k]) ==> spec_places_overlap(a, b, mode)
            && spec_places_overlap(b, a, mode),
        a.local != b.local ==> !spec_places_overlap(a, b, mode),
        a.local == b.local && mode == SelfFields::Root && a.is_self && b.is_self ==> spec_places_overlap(a, b, mode),
        !(mode == SelfFields::Root && a.is_self && b.is_self) && (exists|k: int|
            0 <= k < a.projections.len() && k < b.projections.len() && a.projections[k] != b.projections[k])
            ==> !spec_places_overlap(a, b, mode),
{
    if exists|k: int|
        0 <= k < a.projections.len() && k < b.projections.len() && a.projections[k] != b.projections[k] {
        let k = choose|k: int|
            0 <= k < a.projections.len() && k < b.projections.len() && a.projections[k] != b.projections[k];
        if starts_with(a.projections, b.projections) {
            assert(a.projections.subrange(0, b.projections.len() as int)[k] == a.projections[k]);
        }
        if starts_with(b.projections, a.projections) {
            assert(b.projections.subrange(0, a.projections.len() as int)[k] == b.projections[k]);
        }
    }
    if a.local == b.local && a.projections.len() <= b.projections.len() && (forall|k: int|
        0 <= k < a.projections.len() ==> a.projections[k] == b.projections[k]) {
        assert(b.projections.subrange(0, a.projections.len() as int) =~= a.projections);
    }
}

/// A unit that defines or writes an aggregate directly produces what a unit
/// reading one of its fields reads: with both facts known, when `a` defines or
/// writes a place and `b` reads a place of the same root whose projection path
/// extends it, `a` is a direct producer of `b`, and the two are related.
pub proof fn lemma_aggregate_producer(a: FactsView, b: FactsView, settings: Grouping, i: int, j: int)
    requires
        a.known,
        b.known,
        0 <= i < spec_outputs(a).len(),
        0 <= j < b.reads.len(),
        spec_outputs(a)[i].local == b.reads[j].local,
        spec_outputs(a)[i].projections.len() <= b.reads[j].projections.len(),
        forall|k: int|
            0 <= k < spec_outputs(a)[i].projections.len() ==> spec_outputs(a)[i].projections[k]
                == b.reads[j].projections[k],
    ensures
        spec_direct_producer(a, b, settings),
        spec_relationship(a, b, settings) == Relationship::Related,
{
    lemma_aggregate_overlaps_field(spec_outputs(a)[i], b.reads[j], settings.self_fields);
    assert(spec_places_overlap(spec_outputs(a)[i], b.reads[j], settings.self_fields));
}


} // verus!
