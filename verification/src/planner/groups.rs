//! Compact receiver operations connected through intervening local setup.
use vstd::prelude::*;

use super::decisions::{blocked, spec_blocked};
use crate::config::{Config, Expressions, Tail};
use crate::model::{places_view, Place, PlaceView, Unit, UnitKind, UnitList};
use crate::relations::{intersects, spec_intersects};

verus! {

/// The names a list of strings holds.
pub open spec fn name_set(names: Seq<String>) -> Set<Seq<char>> {
    Set::new(|n: Seq<char>| exists|k: int| 0 <= k < names.len() && #[trigger] names[k]@ == n)
}

/// The root bindings of a list of places.
pub open spec fn roots(places: Seq<PlaceView>) -> Set<Seq<char>> {
    Set::new(|n: Seq<char>| exists|j: int| 0 <= j < places.len() && #[trigger] places[j].local == n)
}

/// Whether some place of `reads` has its root among `names`.
pub open spec fn reads_name(reads: Seq<PlaceView>, names: Set<Seq<char>>) -> bool {
    exists|j: int| 0 <= j < reads.len() && names.contains(#[trigger] reads[j].local)
}

/// Appending a string adds its name.
proof fn lemma_name_set_push(names: Seq<String>, name: String)
    ensures
        name_set(names.push(name)) == name_set(names).insert(name@),
{
    let longer = names.push(name);
    assert forall|n: Seq<char>| name_set(longer).contains(n) implies name_set(names).insert(name@).contains(n) by {
        let k = choose|k: int| 0 <= k < longer.len() && #[trigger] longer[k]@ == n;
        if k < names.len() {
            assert(names[k]@ == n);
        }
    }
    assert forall|n: Seq<char>| name_set(names).insert(name@).contains(n) implies name_set(longer).contains(n) by {
        if n == name@ {
            assert(longer[names.len() as int]@ == n);
        } else {
            let k = choose|k: int| 0 <= k < names.len() && #[trigger] names[k]@ == n;
            assert(longer[k]@ == n);
        }
    }
    assert(name_set(longer) =~= name_set(names).insert(name@));
}

/// A longer prefix of places adds the root of its last place.
proof fn lemma_roots_take(places: Seq<PlaceView>, i: int)
    requires
        0 <= i < places.len(),
    ensures
        roots(places.take(i + 1)) == roots(places.take(i)).insert(places[i].local),
{
    let short = places.take(i);
    let long = places.take(i + 1);
    assert forall|n: Seq<char>| roots(long).contains(n) implies roots(short).insert(places[i].local).contains(n) by {
        let j = choose|j: int| 0 <= j < long.len() && #[trigger] long[j].local == n;
        if j < i {
            assert(short[j].local == n);
        }
    }
    assert forall|n: Seq<char>| roots(short).insert(places[i].local).contains(n) implies roots(long).contains(n) by {
        if n == places[i].local {
            assert(long[i].local == n);
        } else {
            let j = choose|j: int| 0 <= j < short.len() && #[trigger] short[j].local == n;
            assert(long[j].local == n);
        }
    }
    assert(roots(long) =~= roots(short).insert(places[i].local));
}

/// A list of strings is empty exactly when it holds no name.
proof fn lemma_name_set_empty(names: Seq<String>)
    ensures
        (names.len() == 0) == (name_set(names) == Set::<Seq<char>>::empty()),
{
    if names.len() == 0 {
        assert(name_set(names) =~= Set::<Seq<char>>::empty());
    } else {
        assert(name_set(names).contains(names[0]@));
    }
}

/// Whether `names` holds a name equal to `name`.
fn holds_name(names: &Vec<String>, name: &String) -> (found: bool)
    ensures
        found == name_set(names@).contains(name@),
{
    let mut i: usize = 0;
    while i < names.len()
        invariant
            i <= names@.len(),
            forall|k: int| 0 <= k < i ==> #[trigger] names@[k]@ != name@,
        decreases names@.len() - i,
    {
        if names[i] == *name {
            assert(names@[i as int]@ == name@);
            return true;
        }
        i = i + 1;
    }
    false
}

/// Removes every name equal to `name`.
fn drop_name(names: &mut Vec<String>, name: &String)
    ensures
        name_set(final(names)@) == name_set(old(names)@).remove(name@),
{
    let mut kept: Vec<String> = Vec::new();
    let mut i: usize = 0;
    while i < names.len()
        invariant
            i <= names@.len(),
            name_set(kept@) == name_set(names@.take(i as int)).remove(name@),
        decreases names@.len() - i,
    {
        proof {
            lemma_name_set_push(names@.take(i as int), names@[i as int]);
            assert(names@.take(i as int).push(names@[i as int]) =~= names@.take(i + 1));
        }
        if !(names[i] == *name) {
            let ghost before = kept@;
            kept.push(names[i].clone());
            proof {
                lemma_name_set_push(before, names@[i as int]);
                assert(name_set(kept@) =~= name_set(names@.take(i + 1)).remove(name@));
            }
        } else {
            assert(name_set(kept@) =~= name_set(names@.take(i + 1)).remove(name@));
        }
        i = i + 1;
    }
    proof {
        assert(names@.take(names@.len() as int) =~= names@);
    }
    *names = kept;
}

/// Whether some read of `reads` has a root among `names`.
fn reads_any(reads: &Vec<Place>, names: &Vec<String>) -> (found: bool)
    ensures
        found == reads_name(places_view(reads@), name_set(names@)),
{
    let ghost view = places_view(reads@);
    let mut i: usize = 0;
    while i < reads.len()
        invariant
            i <= reads@.len(),
            view == places_view(reads@),
            forall|j: int| 0 <= j < i ==> !name_set(names@).contains(#[trigger] view[j].local),
        decreases reads@.len() - i,
    {
        if holds_name(names, &reads[i].local) {
            assert(name_set(names@).contains(view[i as int].local));
            return true;
        }
        i = i + 1;
    }
    false
}

/// Whether gap `g` may be inside a cohesive group: editable, joinable, and, unless
/// related units may lose blank lines, without blank lines.
pub open spec fn cohesive_gap(config: Config, list: UnitList, g: int) -> bool {
    !spec_blocked(list, g) && list.gaps@[g].joinable && (config.grouping.join_related
        || list.gaps@[g].blank_lines == 0)
}

/// Whether the receiver-centred grouping applies under the configuration.
pub open spec fn grouping_applies(config: Config) -> bool {
    config.grouping.expressions == Expressions::Related && config.grouping.same_receiver
        && config.control_flow.related_continuation && config.grouping.max_before_control != 0
}

/// Extends a group anchored on an expression over the units from `index` on. The
/// state is the names bound by setup so far, those not read yet, whether setup and
/// a control unit were seen, and the last unit that closes the group so far.
///
/// A group ends at the first unit that is not editably adjacent, is neither an
/// ordinary nor a control unit, is a block's value (other than a control unit when
/// tails may stay attached), or does not use the anchor's receiver or the setup's
/// names (except a `let`); a second control unit, or a `let` after the control
/// unit or without bindings, ends it too. A unit that touches the receiver closes
/// the group when setup was seen and every name it bound has been read.
pub open spec fn extend_group(
    config: Config,
    list: UnitList,
    anchor: Unit,
    index: int,
    definitions: Set<Seq<char>>,
    pending: Set<Seq<char>>,
    has_setup: bool,
    has_control: bool,
    end: int,
) -> int
    decreases list.units@.len() - index,
{
    if index >= list.units@.len() {
        end
    } else {
        let unit = list.units@[index];
        let mode = config.grouping.self_fields;
        if !cohesive_gap(config, list, index - 1) || !(unit.kind.spec_ordinary() || unit.kind == UnitKind::Control)
            || (unit.is_tail && (unit.kind != UnitKind::Control || config.exits.tail == Tail::AlwaysSeparate)) {
            end
        } else {
            let receiver = spec_intersects(anchor.facts@.receivers, unit.facts@.receivers, mode)
                || spec_intersects(anchor.facts@.receivers, unit.facts@.header_reads, mode);
            let related = receiver || spec_intersects(anchor.facts@.receivers, unit.facts@.reads, mode)
                || reads_name(unit.facts@.reads, definitions);
            if (unit.kind == UnitKind::Control && (has_control || !related)) || (unit.kind != UnitKind::Control
                && unit.kind != UnitKind::Let && !related) {
                end
            } else if unit.kind == UnitKind::Let && (has_control || unit.facts@.definitions.len() == 0) {
                end
            } else {
                let is_let = unit.kind == UnitKind::Let;
                let drained = pending.difference(roots(unit.facts@.reads));
                let next_definitions = if is_let {
                    definitions.union(roots(unit.facts@.definitions))
                } else {
                    definitions
                };
                let next_pending = if is_let {
                    drained.union(roots(unit.facts@.definitions))
                } else {
                    drained
                };
                let next_setup = has_setup || is_let;
                let next_end = if next_setup && next_pending == Set::<Seq<char>>::empty() && receiver {
                    index
                } else {
                    end
                };
                extend_group(
                    config,
                    list,
                    anchor,
                    index + 1,
                    next_definitions,
                    next_pending,
                    next_setup,
                    has_control || unit.kind == UnitKind::Control,
                    next_end,
                )
            }
        }
    }
}

/// The last unit of the group anchored at unit `start`, or `start` when no group
/// is anchored there: the anchor is an expression with a receiver.
pub open spec fn group_end(config: Config, list: UnitList, start: int) -> int {
    let anchor = list.units@[start];
    if anchor.kind != UnitKind::Expression || anchor.facts@.receivers.len() == 0 {
        start
    } else {
        extend_group(config, list, anchor, start + 1, Set::empty(), Set::empty(), false, false, start)
    }
}

/// Marks gaps `[start, end)` when they lie within the marks.
pub open spec fn mark_span(marks: Seq<bool>, start: int, end: int) -> Seq<bool> {
    if end <= marks.len() {
        Seq::new(marks.len(), |g: int| marks[g] || (start <= g < end))
    } else {
        marks
    }
}

/// The marks after the groups anchored from unit `start` on: each group marks the
/// gaps inside it, and the next anchor is looked for at its last unit.
pub open spec fn marks_from(config: Config, list: UnitList, start: int, marks: Seq<bool>) -> Seq<bool>
    decreases list.units@.len() - start,
{
    if start < 0 || start >= list.units@.len() {
        marks
    } else {
        let end = group_end(config, list, start);
        if start < end < list.units@.len() {
            let base = if marks.len() == 0 {
                Seq::new(list.gaps@.len(), |g: int| false)
            } else {
                marks
            };
            marks_from(config, list, end, mark_span(base, start, end))
        } else {
            marks_from(config, list, start + 1, marks)
        }
    }
}

/// The cohesive marks of a list: those of its receiver-centred groups when the
/// grouping applies, and none otherwise.
pub open spec fn cohesive_marks(config: Config, list: UnitList) -> Seq<bool> {
    if grouping_applies(config) {
        marks_from(config, list, 0, Seq::empty())
    } else {
        Seq::empty()
    }
}

/// The last unit of the group anchored at unit `start`.
#[verifier::spinoff_prover]
#[verifier::rlimit(60)]
fn find_group_end(config: &Config, list: &UnitList, start: usize) -> (end: usize)
    requires
        start < list.units@.len(),
    ensures
        end == group_end(*config, *list, start as int),
        start <= end < list.units@.len(),
        forall|g: int| start <= g < end ==> #[trigger] cohesive_gap(*config, *list, g),
{
    let anchor = &list.units[start];
    if anchor.kind != UnitKind::Expression || anchor.facts.receivers.len() == 0 {
        return start;
    }
    let mode = config.grouping.self_fields;
    let count = list.units.len();
    let mut definitions: Vec<String> = Vec::new();
    let mut pending: Vec<String> = Vec::new();
    let mut has_setup = false;
    let mut has_control = false;
    let mut end = start;
    let mut index = start + 1;
    let ghost result = extend_group(
        *config,
        *list,
        *anchor,
        start + 1,
        Set::empty(),
        Set::empty(),
        false,
        false,
        start as int,
    );
    proof {
        assert(name_set(definitions@) =~= Set::<Seq<char>>::empty());
        assert(name_set(pending@) =~= Set::<Seq<char>>::empty());
    }
    while index < count
        invariant_except_break
            extend_group(
                *config,
                *list,
                *anchor,
                index as int,
                name_set(definitions@),
                name_set(pending@),
                has_setup,
                has_control,
                end as int,
            ) == result,
        invariant
            count == list.units@.len(),
            *anchor == list.units@[start as int],
            mode == config.grouping.self_fields,
            start < index <= count,
            start <= end < index,
            forall|g: int| start <= g < index - 1 ==> #[trigger] cohesive_gap(*config, *list, g),
        ensures
            end == result,
        decreases count - index,
    {
        let unit = &list.units[index];
        let gap = index - 1;
        let gap_ok = gap < list.gaps.len() && !((!config.grouping.join_related
            && list.gaps[gap].blank_lines != 0) || !list.gaps[gap].joinable);
        if blocked(list, gap) || !gap_ok || !(unit.kind.ordinary() || unit.kind == UnitKind::Control)
            || (unit.is_tail && (unit.kind != UnitKind::Control || config.exits.tail
            == Tail::AlwaysSeparate)) {
            break ;
        }
        assert(cohesive_gap(*config, *list, gap as int));
        let receiver = intersects(&anchor.facts.receivers, &unit.facts.receivers, mode)
            || intersects(&anchor.facts.receivers, &unit.facts.header_reads, mode);
        let uses_local = reads_any(&unit.facts.reads, &definitions);
        let uses_receiver = receiver || intersects(&anchor.facts.receivers, &unit.facts.reads, mode);
        if unit.kind == UnitKind::Control {
            if has_control || !(uses_receiver || uses_local) {
                break ;
            }
            has_control = true;
        } else if unit.kind != UnitKind::Let && !(uses_receiver || uses_local) {
            break ;
        }
        let ghost control_before = has_control;
        // Only affirmative source dependencies are used. Unknown/deferred
        // effects do not establish a connection, but do not erase a known
        // argument read either. All introduced locals must be consumed.
        let ghost pending_start = name_set(pending@);
        let ghost reads = places_view(unit.facts.reads@);
        let mut r: usize = 0;
        while r < unit.facts.reads.len()
            invariant
                r <= unit.facts.reads@.len(),
                reads == places_view(unit.facts.reads@),
                name_set(pending@) == pending_start.difference(roots(reads.take(r as int))),
            decreases unit.facts.reads@.len() - r,
        {
            drop_name(&mut pending, &unit.facts.reads[r].local);
            proof {
                lemma_roots_take(reads, r as int);
                assert(name_set(pending@) =~= pending_start.difference(roots(reads.take(r + 1))));
            }
            r = r + 1;
        }
        proof {
            assert(reads.take(reads.len() as int) =~= reads);
        }
        if unit.kind == UnitKind::Let {
            if has_control || unit.facts.definitions.len() == 0 {
                break ;
            }
            has_setup = true;
            let ghost definitions_start = name_set(definitions@);
            let ghost pending_drained = name_set(pending@);
            let ghost bound = places_view(unit.facts.definitions@);
            let mut d: usize = 0;
            while d < unit.facts.definitions.len()
                invariant
                    d <= unit.facts.definitions@.len(),
                    bound == places_view(unit.facts.definitions@),
                    name_set(definitions@) == definitions_start.union(roots(bound.take(d as int))),
                    name_set(pending@) == pending_drained.union(roots(bound.take(d as int))),
                decreases unit.facts.definitions@.len() - d,
            {
                let local = &unit.facts.definitions[d].local;
                let ghost defs_before = definitions@;
                let ghost pending_before = pending@;
                definitions.push(local.clone());
                pending.push(local.clone());
                proof {
                    lemma_name_set_push(defs_before, *local);
                    lemma_name_set_push(pending_before, *local);
                    lemma_roots_take(bound, d as int);
                    assert(name_set(definitions@) =~= definitions_start.union(roots(bound.take(d + 1))));
                    assert(name_set(pending@) =~= pending_drained.union(roots(bound.take(d + 1))));
                }
                d = d + 1;
            }
            proof {
                assert(bound.take(bound.len() as int) =~= bound);
            }
        }
        proof {
            lemma_name_set_empty(pending@);
        }
        if has_setup && pending.len() == 0 && receiver {
            end = index;
        }
        index = index + 1;
    }
    end
}

/// Marks gaps `[start, end)` as cohesive when they lie within the gap list.
fn mark_range(compact: &mut Vec<bool>, start: usize, end: usize)
    ensures
        final(compact)@ == mark_span(old(compact)@, start as int, end as int),
{
    let ghost marks = compact@;
    if end <= compact.len() {
        let mut k = start;
        while k < end
            invariant
                start <= k,
                k == start || k <= end,
                end <= compact@.len(),
                compact@.len() == marks.len(),
                forall|g: int|
                    0 <= g < marks.len() ==> #[trigger] compact@[g] == (marks[g] || (start <= g < k)),
            decreases end - k,
        {
            compact.set(k, true);
            k = k + 1;
        }
        assert(compact@ =~= mark_span(marks, start as int, end as int));
    }
}

/// Gaps inside compact receiver-centred groups: an expression on a receiver, local
/// setup whose bindings are all consumed, and a closing operation on that receiver.
///
/// The result is empty when no group exists or the policy is off; otherwise it has
/// one entry per gap, and a gap is cohesive only if it is editable and, unless
/// related units may lose blank lines, has none.
pub fn cohesive(config: &Config, list: &UnitList) -> (compact: Vec<bool>)
    ensures
        compact@ == cohesive_marks(*config, *list),
        compact@.len() == 0 || compact@.len() == list.gaps@.len(),
        forall|g: int|
            0 <= g < compact@.len() && #[trigger] compact@[g] ==> cohesive_gap(*config, *list, g),
{
    let mut compact: Vec<bool> = Vec::new();
    if config.grouping.expressions != Expressions::Related || !config.grouping.same_receiver
        || !config.control_flow.related_continuation || config.grouping.max_before_control == 0 {
        return compact;
    }
    let count = list.units.len();
    let ghost result = marks_from(*config, *list, 0, Seq::empty());
    let mut start: usize = 0;
    while start < count
        invariant
            count == list.units@.len(),
            start <= count,
            compact@.len() == 0 || compact@.len() == list.gaps@.len(),
            forall|g: int|
                0 <= g < compact@.len() && #[trigger] compact@[g] ==> cohesive_gap(*config, *list, g),
            marks_from(*config, *list, start as int, compact@) == result,
        decreases count - start,
    {
        let end = find_group_end(config, list, start);
        if end > start {
            if compact.len() == 0 {
                let mut k: usize = 0;
                while k < list.gaps.len()
                    invariant
                        k <= list.gaps@.len(),
                        compact@ == Seq::new(k as nat, |g: int| false),
                    decreases list.gaps@.len() - k,
                {
                    compact.push(false);
                    proof {
                        assert(compact@ =~= Seq::new((k + 1) as nat, |g: int| false));
                    }
                    k = k + 1;
                }
            }
            mark_range(&mut compact, start, end);
            start = end;
        } else {
            start = start + 1;
        }
    }
    compact
}

} // verus!
