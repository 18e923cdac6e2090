//! Compiler anchors and resolved local-place events, joined to source units.
use vstd::prelude::*;

use crate::model::{no_repeats, places_view, ByteRange, Facts, Place, PlaceView, RuleMask};
use crate::relations::{contains_place, same_place};

verus! {

/// Compiler-resolved operation contributing to a unit relationship.
#[derive(Debug, PartialEq, Eq)]
pub enum EventKind {
    /// Read of a local place.
    Read,
    /// Introduction of a binding.
    Define,
    /// Assignment or exposure of a place through a mutable reference/raw address.
    Write,
    /// Use of a place as a method receiver.
    Receiver,
    /// Receiver compiler-adjusted to a mutable reference.
    MutatingReceiver,
    /// Resolved identity of a direct source expression-statement call.
    DirectCallee(String),
    /// Compiler-confirmed Result/Option inspection.
    Inspect,
    /// Operation whose effects could not be resolved.
    Unknown,
}

impl Clone for EventKind {
    fn clone(&self) -> (copy: Self)
        ensures
            copy == *self,
    {
        match self {
            EventKind::Read => EventKind::Read,
            EventKind::Define => EventKind::Define,
            EventKind::Write => EventKind::Write,
            EventKind::Receiver => EventKind::Receiver,
            EventKind::MutatingReceiver => EventKind::MutatingReceiver,
            EventKind::DirectCallee(callee) => EventKind::DirectCallee(callee.clone()),
            EventKind::Inspect => EventKind::Inspect,
            EventKind::Unknown => EventKind::Unknown,
        }
    }
}

/// One compiler event located in normalized original source.
#[derive(Debug)]
pub struct Event {
    /// Event span in normalized source bytes.
    pub range: ByteRange,
    /// Operation performed at this span.
    pub kind: EventKind,
    /// Resolved local place, when the operation identifies one.
    pub place: Option<Place>,
}

impl Clone for Event {
    fn clone(&self) -> (copy: Self)
        ensures
            copy.range == self.range,
            copy.kind == self.kind,
            copy.place matches Some(p) ==> self.place matches Some(q) && p@ == q@,
            copy.place is None ==> self.place is None,
    {
        Event {
            range: self.range,
            kind: self.kind.clone(),
            place: match &self.place {
                Some(p) => Some(p.clone()),
                None => None,
            },
        }
    }
}

/// Active compiler node corresponding to a direct source unit.
#[derive(Clone, Copy, Debug, PartialEq, Eq, Structural)]
pub struct Anchor {
    /// Compiler-node span in normalized source bytes.
    pub range: ByteRange,
    /// Opaque compiler identity used to scope diagnostics.
    pub id: usize,
    /// Spacing lints enabled at this compiler node.
    pub enabled: RuleMask,
}

/// Compiler anchors and local-place events for one source file.
#[derive(Debug)]
pub struct SemanticIndex {
    /// Active original-source nodes eligible for linting.
    pub anchors: Vec<Anchor>,
    /// Resolved reads, definitions, writes, receivers, and checks.
    pub events: Vec<Event>,
}

impl Default for SemanticIndex {
    fn default() -> (index: Self)
        ensures
            index.anchors@.len() == 0,
            index.events@.len() == 0,
    {
        SemanticIndex { anchors: Vec::new(), events: Vec::new() }
    }
}

/// Whether an anchor matches a code span: same start, ending at its end or one
/// byte before (a trailing semicolon).
pub open spec fn anchor_matches(anchor: Anchor, range: ByteRange) -> bool {
    anchor.range.start == range.start && anchor.range.end <= range.end && range.end
        - anchor.range.end <= 1
}

/// The matching anchor with the greatest end among `anchors[..k]`; of equal
/// ends, the later one.
pub open spec fn best_anchor(anchors: Seq<Anchor>, range: ByteRange, k: int) -> Option<Anchor>
    decreases k,
{
    if k <= 0 || k > anchors.len() {
        None
    } else {
        let best = best_anchor(anchors, range, k - 1);
        let a = anchors[k - 1];
        if anchor_matches(a, range) && (best matches Some(b) ==> b.range.end <= a.range.end) {
            Some(a)
        } else {
            best
        }
    }
}

/// Whether an event lies within a unit and outside its deferred bodies.
pub open spec fn event_relevant(e: Event, range: ByteRange, deferred: Seq<ByteRange>) -> bool {
    range.spec_contains(e.range) && !(exists|d: int|
        0 <= d < deferred.len() && #[trigger] deferred[d].spec_contains(e.range))
}

/// Whether region `r` of a list contains a span.
pub open spec fn within_any(regions: Seq<ByteRange>, span: ByteRange) -> bool {
    exists|r: int| 0 <= r < regions.len() && #[trigger] regions[r].spec_contains(span)
}

/// Which events one list of facts gathers.
#[derive(Clone, Copy, Debug, PartialEq, Eq, Structural)]
pub enum Gather {
    /// Bindings introduced within the declaration.
    Definitions,
    /// Reads that are not the incidental base of a longer written projection.
    Reads,
    /// Writes.
    Writes,
    /// Method receivers.
    Receivers,
    /// Receivers adjusted to a mutable reference.
    MutatingReceivers,
}

/// Whether the read event `events[k]` is the base of a longer written
/// projection of the same local that another relevant read covers.
pub open spec fn incidental_read(
    events: Seq<Event>,
    k: int,
    range: ByteRange,
    deferred: Seq<ByteRange>,
) -> bool {
    exists|j: int|
        0 <= j < events.len() && event_relevant(#[trigger] events[j], range, deferred)
            && events[j].kind == EventKind::Read && events[j].range != events[k].range
            && events[j].range.spec_contains(events[k].range) && events[j].place is Some
            && events[k].place is Some && events[j].place->0.local@ == events[k].place->0.local@
            && events[j].place->0.projections@.len() > events[k].place->0.projections@.len()
}

/// Whether the event `events[k]` contributes its place to the gathered list,
/// restricted to `regions` when there are any.
pub open spec fn gathered(
    events: Seq<Event>,
    k: int,
    g: Gather,
    range: ByteRange,
    deferred: Seq<ByteRange>,
    regions: Option<Seq<ByteRange>>,
) -> bool {
    &&& event_relevant(events[k], range, deferred)
    &&& events[k].place is Some
    &&& (regions matches Some(rs) ==> within_any(rs, events[k].range))
    &&& match g {
        Gather::Definitions => events[k].kind == EventKind::Define,
        Gather::Reads => events[k].kind == EventKind::Read && !incidental_read(
            events,
            k,
            range,
            deferred,
        ),
        Gather::Writes => events[k].kind == EventKind::Write,
        Gather::Receivers => events[k].kind == EventKind::Receiver,
        Gather::MutatingReceivers => events[k].kind == EventKind::MutatingReceiver,
    }
}

/// The places that the events gather, by value.
pub open spec fn gathers(
    events: Seq<Event>,
    g: Gather,
    range: ByteRange,
    deferred: Seq<ByteRange>,
    regions: Option<Seq<ByteRange>>,
    v: PlaceView,
) -> bool {
    exists|k: int|
        0 <= k < events.len() && gathered(events, k, g, range, deferred, regions)
            && (#[trigger] events[k]).place->0@ == v
}

/// The state of the inspection check after the first `k` events: the single
/// inspected place, and whether two different places were inspected.
pub open spec fn inspection(
    events: Seq<Event>,
    range: ByteRange,
    deferred: Seq<ByteRange>,
    header: Option<ByteRange>,
    k: int,
) -> (Option<PlaceView>, bool)
    decreases k,
{
    if k <= 0 || k > events.len() {
        (None, false)
    } else {
        let (check, conflict) = inspection(events, range, deferred, header, k - 1);
        let e = events[k - 1];
        if event_relevant(e, range, deferred) && e.kind == EventKind::Inspect && e.place is Some
            && header is Some && header->0.spec_contains(e.range) {
            if check is Some && check->0 != e.place->0@ {
                (None, true)
            } else {
                (Some(e.place->0@), conflict)
            }
        } else {
            (check, conflict)
        }
    }
}

/// Whether a relevant event could not be resolved.
pub open spec fn has_unknown(events: Seq<Event>, range: ByteRange, deferred: Seq<ByteRange>) -> bool {
    exists|k: int|
        0 <= k < events.len() && event_relevant(#[trigger] events[k], range, deferred)
            && events[k].kind == EventKind::Unknown
}

/// Whether a relevant event names `callee` as the direct callee of the whole unit.
pub open spec fn direct_callee(
    events: Seq<Event>,
    range: ByteRange,
    deferred: Seq<ByteRange>,
    callee: Seq<char>,
) -> bool {
    exists|k: int|
        0 <= k < events.len() && event_relevant(#[trigger] events[k], range, deferred)
            && events[k].kind is DirectCallee && events[k].kind->0@ == callee
            && events[k].range.start == range.start && range.end - events[k].range.end <= 1
}

/// Whether every relevant event of `events[..k]` that `g` gathers has its place in `list`.
spec fn gathered_prefix_in(
    events: Seq<Event>,
    k: int,
    g: Gather,
    range: ByteRange,
    deferred: Seq<ByteRange>,
    regions: Option<Seq<ByteRange>>,
    list: Seq<PlaceView>,
) -> bool {
    forall|j: int|
        0 <= j < k && gathered(events, j, g, range, deferred, regions) ==> list.contains(
            (#[trigger] events[j]).place->0@,
        )
}

/// Adds a place to a list unless the list already holds it.
fn add_place(list: &mut Vec<Place>, place: &Place)
    ensures
        no_repeats(places_view(old(list)@)) ==> no_repeats(places_view(final(list)@)),
        forall|v: PlaceView|
            places_view(final(list)@).contains(v) <==> places_view(old(list)@).contains(v) || v
                == place@,
{
    if !contains_place(list, place) {
        let ghost before = list@;
        list.push(place.clone());
        proof {
            if no_repeats(places_view(before)) {
                assert forall|j: int, k: int| 0 <= j < k < places_view(list@).len() implies places_view(list@)[j]
                    != places_view(list@)[k] by {
                    if k == before.len() {
                        assert(places_view(before)[j] == places_view(list@)[j]);
                    } else {
                        assert(places_view(before)[j] == places_view(list@)[j]);
                        assert(places_view(before)[k] == places_view(list@)[k]);
                    }
                }
            }
            assert forall|v: PlaceView|
                places_view(list@).contains(v) <==> places_view(before).contains(v) || v
                    == place@ by {
                if places_view(list@).contains(v) {
                    let i = choose|i: int| 0 <= i < places_view(list@).len() && places_view(list@)[i] == v;
                    if i < before.len() {
                        assert(places_view(before)[i] == v);
                    }
                }
                if places_view(before).contains(v) {
                    let i = choose|i: int| 0 <= i < places_view(before).len() && places_view(before)[i] == v;
                    assert(places_view(list@)[i] == v);
                }
                if v == place@ {
                    assert(places_view(list@)[before.len() as int] == v);
                }
            }
        }
    }
}

/// Whether some range of a list contains a span.
fn any_contains(regions: &[ByteRange], span: ByteRange) -> (found: bool)
    ensures
        found == within_any(regions@, span),
{
    let mut i: usize = 0;
    while i < regions.len()
        invariant
            i <= regions@.len(),
            forall|r: int| 0 <= r < i ==> !(#[trigger] regions@[r]).spec_contains(span),
        decreases regions@.len() - i,
    {
        if regions[i].contains(span) {
            return true;
        }
        i = i + 1;
    }
    false
}

/// Whether `facts`, apart from the checked place, are those that the events give
/// for a unit at `range`: it is known unless it is opaque, holds an unknown
/// operation or checks two places; and each list holds exactly the places that the
/// events gather for it (definitions within `declaration`, header reads within
/// `header`, first-body reads within `first_body`), leaving out `deferred` bodies.
pub open spec fn facts_gathered(
    events: Seq<Event>,
    range: ByteRange,
    declaration: Option<ByteRange>,
    header: Option<ByteRange>,
    first_body: Seq<ByteRange>,
    deferred: Seq<ByteRange>,
    opaque: bool,
    facts: crate::model::FactsView,
) -> bool {
    &&& facts.known == (!opaque && !has_unknown(events, range, deferred) && !inspection(
        events,
        range,
        deferred,
        header,
        events.len() as int,
    ).1)
    &&& forall|v: PlaceView|
            facts.definitions.contains(v) <==> declaration is Some && gathers(
                events,
                Gather::Definitions,
                range,
                deferred,
                Some(seq![declaration->0]),
                v,
            )
    &&& forall|v: PlaceView|
            facts.reads.contains(v) <==> gathers(events, Gather::Reads, range, deferred, None, v)
    &&& forall|v: PlaceView|
            facts.whole_body_reads.contains(v) <==> gathers(
                events,
                Gather::Reads,
                range,
                deferred,
                None,
                v,
            )
    &&& forall|v: PlaceView|
            facts.header_reads.contains(v) <==> header is Some && gathers(
                events,
                Gather::Reads,
                range,
                deferred,
                Some(seq![header->0]),
                v,
            )
    &&& forall|v: PlaceView|
            facts.first_body_reads.contains(v) <==> gathers(
                events,
                Gather::Reads,
                range,
                deferred,
                Some(first_body),
                v,
            )
    &&& forall|v: PlaceView|
            facts.writes.contains(v) <==> gathers(events, Gather::Writes, range, deferred, None, v)
    &&& forall|v: PlaceView|
            facts.receivers.contains(v) <==> gathers(
                events,
                Gather::Receivers,
                range,
                deferred,
                None,
                v,
            )
    &&& forall|v: PlaceView|
            facts.mutating_receivers.contains(v) <==> gathers(
                events,
                Gather::MutatingReceivers,
                range,
                deferred,
                None,
                v,
            )
    &&& forall|c: Seq<char>|
            facts.direct_callees.contains(c) <==> direct_callee(events, range, deferred, c)
    &&& no_repeats(facts.definitions)
    &&& no_repeats(facts.reads)
    &&& no_repeats(facts.writes)
    &&& no_repeats(facts.receivers)
    &&& no_repeats(facts.mutating_receivers)
    &&& no_repeats(facts.header_reads)
    &&& no_repeats(facts.first_body_reads)
    &&& no_repeats(facts.whole_body_reads)
}

impl SemanticIndex {
    /// Finds an exact-start anchor, permitting an optional trailing semicolon;
    /// of several, the one that ends last.
    pub fn anchor(&self, range: ByteRange) -> (found: Option<Anchor>)
        ensures
            found == best_anchor(self.anchors@, range, self.anchors@.len() as int),
    {
        let mut best: Option<Anchor> = None;
        let mut k: usize = 0;
        while k < self.anchors.len()
            invariant
                k <= self.anchors@.len(),
                best == best_anchor(self.anchors@, range, k as int),
            decreases self.anchors@.len() - k,
        {
            let a = self.anchors[k];
            let matches = a.range.start == range.start && a.range.end <= range.end && range.end
                - a.range.end <= 1;
            let better = match best {
                Some(b) => b.range.end <= a.range.end,
                None => true,
            };
            if matches && better {
                best = Some(a);
            }
            k = k + 1;
        }
        best
    }

    /// Whether event `k` lies within `range` and outside every deferred body.
    fn relevant(&self, k: usize, range: ByteRange, deferred: &[ByteRange]) -> (r: bool)
        requires
            k < self.events@.len(),
        ensures
            r == event_relevant(self.events@[k as int], range, deferred@),
    {
        range.contains(self.events[k].range) && !any_contains(deferred, self.events[k].range)
    }

    /// Whether the read event `k` is the incidental base of a longer relevant read.
    fn incidental(&self, k: usize, range: ByteRange, deferred: &[ByteRange]) -> (r: bool)
        requires
            k < self.events@.len(),
        ensures
            r == incidental_read(self.events@, k as int, range, deferred@),
    {
        let ghost events = self.events@;
        let mut j: usize = 0;
        while j < self.events.len()
            invariant
                events == self.events@,
                k < events.len(),
                j <= events.len(),
                forall|i: int|
                    0 <= i < j ==> !(event_relevant(#[trigger] events[i], range, deferred@)
                        && events[i].kind == EventKind::Read && events[i].range != events[k as int].range
                        && events[i].range.spec_contains(events[k as int].range)
                        && events[i].place is Some && events[k as int].place is Some
                        && events[i].place->0.local@ == events[k as int].place->0.local@
                        && events[i].place->0.projections@.len()
                        > events[k as int].place->0.projections@.len()),
            decreases events.len() - j,
        {
            let outer = &self.events[j];
            let kind_read = match outer.kind {
                EventKind::Read => true,
                _ => false,
            };
            if kind_read && outer.range != self.events[k].range && outer.range.contains(
                self.events[k].range,
            ) && self.relevant(j, range, deferred) {
                if let (Some(p), Some(q)) = (&outer.place, &self.events[k].place) {
                    if p.local == q.local && p.projections.len() > q.projections.len() {
                        return true;
                    }
                }
            }
            j = j + 1;
        }
        false
    }

    /// The places of the relevant events that `g` gathers, restricted to `regions`.
    fn gather(
        &self,
        g: Gather,
        range: ByteRange,
        deferred: &[ByteRange],
        regions: Option<&[ByteRange]>,
    ) -> (list: Vec<Place>)
        ensures
            no_repeats(places_view(list@)),
            forall|v: PlaceView|
                places_view(list@).contains(v) <==> gathers(
                    self.events@,
                    g,
                    range,
                    deferred@,
                    match regions {
                        Some(rs) => Some(rs@),
                        None => None,
                    },
                    v,
                ),
    {
        let ghost events = self.events@;
        let ghost rs = match regions {
            Some(r) => Some(r@),
            None => None,
        };
        let mut list: Vec<Place> = Vec::new();
        let mut k: usize = 0;
        while k < self.events.len()
            invariant
                events == self.events@,
                rs == match regions {
                    Some(r) => Some(r@),
                    None => None::<Seq<ByteRange>>,
                },
                k <= events.len(),
                no_repeats(places_view(list@)),
                forall|v: PlaceView|
                    places_view(list@).contains(v) <==> exists|j: int|
                        0 <= j < k && gathered(events, j, g, range, deferred@, rs) && (
                        #[trigger] events[j]).place->0@ == v,
            decreases events.len() - k,
        {
            let kind_ok = match (g, &self.events[k].kind) {
                (Gather::Definitions, EventKind::Define) => true,
                (Gather::Reads, EventKind::Read) => true,
                (Gather::Writes, EventKind::Write) => true,
                (Gather::Receivers, EventKind::Receiver) => true,
                (Gather::MutatingReceivers, EventKind::MutatingReceiver) => true,
                _ => false,
            };
            let in_region = match regions {
                Some(r) => any_contains(r, self.events[k].range),
                None => true,
            };
            let take = kind_ok && in_region && self.events[k].place.is_some() && self.relevant(
                k,
                range,
                deferred,
            ) && (g != Gather::Reads || !self.incidental(k, range, deferred));
            proof {
                assert(take == gathered(events, k as int, g, range, deferred@, rs));
            }
            let ghost before = list@;
            if take {
                match &self.events[k].place {
                    Some(place) => add_place(&mut list, place),
                    None => {},
                }
            }
            proof {
                assert forall|v: PlaceView|
                    places_view(list@).contains(v) <==> exists|j: int|
                        0 <= j < k + 1 && gathered(events, j, g, range, deferred@, rs) && (
                        #[trigger] events[j]).place->0@ == v by {
                    if places_view(list@).contains(v) {
                        if places_view(before).contains(v) {
                            let j = choose|j: int|
                                0 <= j < k && gathered(events, j, g, range, deferred@, rs) && (
                                #[trigger] events[j]).place->0@ == v;
                            assert(0 <= j < k + 1);
                        } else {
                            assert(take && events[k as int].place->0@ == v);
                        }
                    }
                    if exists|j: int|
                        0 <= j < k + 1 && gathered(events, j, g, range, deferred@, rs) && (
                        #[trigger] events[j]).place->0@ == v {
                        let j = choose|j: int|
                            0 <= j < k + 1 && gathered(events, j, g, range, deferred@, rs) && (
                            #[trigger] events[j]).place->0@ == v;
                        if j < k {
                            assert(places_view(before).contains(v));
                        }
                    }
                }
            }
            k = k + 1;
        }
        list
    }

    /// The direct callees that relevant events name for the whole unit.
    fn callees(&self, range: ByteRange, deferred: &[ByteRange]) -> (list: Vec<String>)
        ensures
            forall|c: Seq<char>|
                crate::model::strings_view(list@).contains(c) <==> direct_callee(
                    self.events@,
                    range,
                    deferred@,
                    c,
                ),
    {
        let ghost events = self.events@;
        let mut list: Vec<String> = Vec::new();
        let mut k: usize = 0;
        while k < self.events.len()
            invariant
                events == self.events@,
                k <= events.len(),
                forall|c: Seq<char>|
                    crate::model::strings_view(list@).contains(c) <==> exists|j: int|
                        0 <= j < k && event_relevant(#[trigger] events[j], range, deferred@)
                            && events[j].kind is DirectCallee && events[j].kind->0@ == c
                            && events[j].range.start == range.start && range.end
                            - events[j].range.end <= 1,
            decreases events.len() - k,
        {
            let ghost before = list@;
            let ghost qualifies = event_relevant(events[k as int], range, deferred@)
                && events[k as int].kind is DirectCallee && events[k as int].range.start
                == range.start && range.end - events[k as int].range.end <= 1;
            if let EventKind::DirectCallee(callee) = &self.events[k].kind {
                let e = self.events[k].range;
                if e.start == range.start && e.end <= range.end && range.end - e.end <= 1
                    && self.relevant(k, range, deferred) {
                    if !contains_string(&list, callee) {
                        list.push(callee.clone());
                    }
                    proof {
                        assert(crate::model::strings_view(list@).contains(callee@)) by {
                            if list@.len() > before.len() {
                                assert(crate::model::strings_view(list@)[before.len() as int]
                                    == callee@);
                            } else {
                                assert(crate::model::strings_view(list@) == crate::model::strings_view(
                                    before,
                                ));
                            }
                        }
                    }
                }
            }
            proof {
                assert(list@ == before || (qualifies && list@ == before.push(events[k as int].kind->0)));
                let sv = crate::model::strings_view(list@);
                let bv = crate::model::strings_view(before);
                assert(forall|i: int| 0 <= i < bv.len() ==> sv[i] == bv[i]);
                assert(qualifies ==> sv.contains(events[k as int].kind->0@));
                assert forall|c: Seq<char>|
                    sv.contains(c) <==> exists|j: int|
                        0 <= j < k + 1 && event_relevant(#[trigger] events[j], range, deferred@)
                            && events[j].kind is DirectCallee && events[j].kind->0@ == c
                            && events[j].range.start == range.start && range.end
                            - events[j].range.end <= 1 by {
                    if sv.contains(c) {
                        let i = choose|i: int| 0 <= i < sv.len() && sv[i] == c;
                        if i < before.len() {
                            assert(bv[i] == c);
                            assert(bv.contains(c));
                        } else {
                            assert(qualifies && events[k as int].kind->0@ == c);
                        }
                    }
                    if exists|j: int|
                        0 <= j < k + 1 && event_relevant(#[trigger] events[j], range, deferred@)
                            && events[j].kind is DirectCallee && events[j].kind->0@ == c
                            && events[j].range.start == range.start && range.end
                            - events[j].range.end <= 1 {
                        let j = choose|j: int|
                            0 <= j < k + 1 && event_relevant(#[trigger] events[j], range, deferred@)
                                && events[j].kind is DirectCallee && events[j].kind->0@ == c
                                && events[j].range.start == range.start && range.end
                                - events[j].range.end <= 1;
                        if j < k {
                            assert(bv.contains(c));
                            let i = choose|i: int| 0 <= i < bv.len() && bv[i] == c;
                            assert(sv[i] == c);
                        } else {
                            assert(qualifies);
                        }
                    }
                }
            }
            k = k + 1;
        }
        list
    }

    /// Aggregates events within a unit, excluding deferred bodies.
    ///
    /// `declaration` limits binding definitions; `header` and `first_body` select
    /// control-flow inputs. Opaque or unknown operations make the facts unknown.
    pub fn facts(
        &self,
        range: ByteRange,
        declaration: Option<ByteRange>,
        header: Option<ByteRange>,
        first_body: &[ByteRange],
        deferred: &[ByteRange],
        opaque: bool,
    ) -> (facts: Facts)
        ensures
            facts_gathered(
                self.events@,
                range,
                declaration,
                header,
                first_body@,
                deferred@,
                opaque,
                facts@,
            ),
            facts@.check_of == inspection(
                self.events@,
                range,
                deferred@,
                header,
                self.events@.len() as int,
            ).0,
    {
        let ghost events = self.events@;
        let definitions = match declaration {
            Some(d) => {
                let regions = [d];
                proof {
                    assert(regions@ =~= seq![d]);
                }
                self.gather(Gather::Definitions, range, deferred, Some(regions.as_slice()))
            },
            None => Vec::new(),
        };
        let header_reads = match header {
            Some(h) => {
                let regions = [h];
                proof {
                    assert(regions@ =~= seq![h]);
                }
                self.gather(Gather::Reads, range, deferred, Some(regions.as_slice()))
            },
            None => Vec::new(),
        };
        let mut unknown = false;
        let mut conflict = false;
        let mut check_of: Option<Place> = None;
        let mut k: usize = 0;
        while k < self.events.len()
            invariant
                events == self.events@,
                k <= events.len(),
                unknown == exists|j: int|
                    0 <= j < k && event_relevant(#[trigger] events[j], range, deferred@)
                        && events[j].kind == EventKind::Unknown,
                (crate::model::option_place_view(check_of), conflict) == inspection(
                    events,
                    range,
                    deferred@,
                    header,
                    k as int,
                ),
            decreases events.len() - k,
        {
            let relevant = self.relevant(k, range, deferred);
            let e = &self.events[k];
            match e.kind {
                EventKind::Unknown => {
                    if relevant {
                        unknown = true;
                    }
                },
                EventKind::Inspect => {
                    let in_header = match header {
                        Some(h) => h.contains(e.range),
                        None => false,
                    };
                    if relevant && in_header {
                        if let Some(place) = &e.place {
                            let differs = match &check_of {
                                Some(p) => !same_place(p, place),
                                None => false,
                            };
                            if differs {
                                check_of = None;
                                conflict = true;
                            } else {
                                check_of = Some(place.clone());
                            }
                        }
                    }
                },
                _ => {},
            }
            k = k + 1;
        }
        let facts = Facts {
            known: !opaque && !unknown && !conflict,
            definitions,
            reads: self.gather(Gather::Reads, range, deferred, None),
            writes: self.gather(Gather::Writes, range, deferred, None),
            receivers: self.gather(Gather::Receivers, range, deferred, None),
            mutating_receivers: self.gather(Gather::MutatingReceivers, range, deferred, None),
            direct_callees: self.callees(range, deferred),
            header_reads,
            first_body_reads: self.gather(Gather::Reads, range, deferred, Some(first_body)),
            whole_body_reads: self.gather(Gather::Reads, range, deferred, None),
            check_of,
        };
        proof {
            assert(has_unknown(events, range, deferred@) == unknown);
            assert forall|v: PlaceView|
                facts@.definitions.contains(v) <==> declaration is Some && gathers(
                    events,
                    Gather::Definitions,
                    range,
                    deferred@,
                    Some(seq![declaration->0]),
                    v,
                ) by {
                if declaration is None {
                    assert(places_view(facts.definitions@) =~= Seq::<PlaceView>::empty());
                }
            }
            assert forall|v: PlaceView|
                facts@.header_reads.contains(v) <==> header is Some && gathers(
                    events,
                    Gather::Reads,
                    range,
                    deferred@,
                    Some(seq![header->0]),
                    v,
                ) by {
                if header is None {
                    assert(places_view(facts.header_reads@) =~= Seq::<PlaceView>::empty());
                }
            }
        }
        facts
    }

    /// Creates synthetic anchors for structural tests, without resolved events:
    /// anchor `i` covers `ranges[i]`, has identity `i` and enables every rule.
    pub fn structural_anchors(ranges: Vec<ByteRange>) -> (index: Self)
        ensures
            index.anchors@.len() == ranges@.len(),
            forall|i: int|
                0 <= i < ranges@.len() ==> (#[trigger] index.anchors@[i]).range == ranges@[i]
                    && index.anchors@[i].id == i && index.anchors@[i].enabled@ == Set::<
                    crate::model::Rule,
                >::full(),
            index.events@.len() == 0,
    {
        let mut anchors: Vec<Anchor> = Vec::new();
        let mut i: usize = 0;
        while i < ranges.len()
            invariant
                i <= ranges@.len(),
                anchors@.len() == i,
                forall|k: int|
                    0 <= k < i ==> (#[trigger] anchors@[k]).range == ranges@[k] && anchors@[k].id
                        == k && anchors@[k].enabled@ == Set::<crate::model::Rule>::full(),
            decreases ranges@.len() - i,
        {
            anchors.push(Anchor { range: ranges[i], id: i, enabled: RuleMask::all() });
            i = i + 1;
        }
        SemanticIndex { anchors, events: Vec::new() }
    }

    /// Collects resolved places read inside the supplied source range.
    pub fn local_reads(&self, range: ByteRange) -> (reads: Vec<Place>)
        ensures
            forall|v: PlaceView|
                places_view(reads@).contains(v) <==> exists|k: int|
                    0 <= k < self.events@.len() && (#[trigger] self.events@[k]).kind
                        == EventKind::Read && range.spec_contains(self.events@[k].range)
                        && self.events@[k].place is Some && self.events@[k].place->0@ == v,
    {
        let ghost events = self.events@;
        let mut reads: Vec<Place> = Vec::new();
        let mut k: usize = 0;
        while k < self.events.len()
            invariant
                events == self.events@,
                k <= events.len(),
                forall|v: PlaceView|
                    places_view(reads@).contains(v) <==> exists|j: int|
                        0 <= j < k && (#[trigger] events[j]).kind == EventKind::Read
                            && range.spec_contains(events[j].range) && events[j].place is Some && events[j].place->0@ == v,
            decreases events.len() - k,
        {
            let ghost before = reads@;
            let is_read = match self.events[k].kind {
                EventKind::Read => true,
                _ => false,
            };
            if is_read && range.contains(self.events[k].range) {
                if let Some(place) = &self.events[k].place {
                    add_place(&mut reads, place);
                }
            }
            proof {
                assert forall|v: PlaceView|
                    places_view(reads@).contains(v) <==> exists|j: int|
                        0 <= j < k + 1 && (#[trigger] events[j]).kind == EventKind::Read
                            && range.spec_contains(events[j].range) && events[j].place is Some && events[j].place->0@ == v by {
                    if exists|j: int|
                        0 <= j < k + 1 && (#[trigger] events[j]).kind == EventKind::Read
                            && range.spec_contains(events[j].range) && events[j].place is Some && events[j].place->0@ == v {
                        let j = choose|j: int|
                            0 <= j < k + 1 && (#[trigger] events[j]).kind == EventKind::Read
                                && range.spec_contains(events[j].range)
                                && events[j].place is Some && events[j].place->0@ == v;
                        if j < k {
                            assert(places_view(before).contains(v));
                        }
                    }
                }
            }
            k = k + 1;
        }
        reads
    }
}

/// Whether a list of strings holds `s`.
fn contains_string(list: &Vec<String>, s: &String) -> (found: bool)
    ensures
        found == crate::model::strings_view(list@).contains(s@),
{
    let mut i: usize = 0;
    while i < list.len()
        invariant
            i <= list@.len(),
            forall|k: int| 0 <= k < i ==> #[trigger] list@[k]@ != s@,
        decreases list@.len() - i,
    {
        if list[i] == *s {
            assert(crate::model::strings_view(list@)[i as int] == s@);
            return true;
        }
        i = i + 1;
    }
    proof {
        if crate::model::strings_view(list@).contains(s@) {
            let k = choose|k: int|
                0 <= k < crate::model::strings_view(list@).len() && crate::model::strings_view(
                    list@,
                )[k] == s@;
            assert(list@[k]@ == s@);
        }
    }
    false
}

} // verus!
