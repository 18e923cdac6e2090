//! Lowering a syntax tree to the spacing model: one unit list per statement or
//! item container, with the gaps between its units and the removable padding at
//! block edges and after attributes.
use vstd::prelude::*;
use vstd::utf8::encode_utf8;

use crate::model::{ByteRange, Facts, Rule, RuleMask, SourceModel, Unit, UnitKind, UnitList};
use crate::slices::{all_trivia, bytes_are_trivia, char_range};
use crate::syntax::comments::{classify_gap, slice_of, spec_classify_gap};
use crate::syntax::protection::{inside_token_tree, protected, spec_protected};
use crate::syntax::semantics::{best_anchor, facts_gathered, inspection, SemanticIndex};
use crate::syntax::tree::{
    child_nodes, first_pick, first_token_among, spec_children, Element, Kind, Pick, SyntaxTree,
};
use crate::syntax::units::{
    code_range, control_body_start, deferred_ranges, expression_node, guard, immediate_body_first,
    is_unit, spec_body_first, spec_body_start, spec_code_range, spec_deferred, spec_expression_node,
    spec_guard, spec_unit_kind, unit_kind,
};

verus! {

/// Whether an expression is a `break` or `continue` without a value.
pub open spec fn spec_loop_exit(els: Seq<Element>, e: int) -> bool {
    (els[e].kind == Kind::BreakExpr || els[e].kind == Kind::ContinueExpr) && first_pick(
        els,
        child_nodes(els, e),
        Pick::Expression,
    ) is None
}

/// Whether an expression is a `return` without a value.
pub open spec fn spec_bare_return(els: Seq<Element>, e: int) -> bool {
    els[e].kind == Kind::ReturnExpr && first_pick(els, child_nodes(els, e), Pick::Expression) is None
}

/// The number of units of a list that are not items.
pub open spec fn executable_units(units: Seq<Unit>) -> nat
    decreases units.len(),
{
    if units.len() == 0 {
        0
    } else {
        executable_units(units.drop_last()) + if units.last().kind is Item {
            0nat
        } else {
            1nat
        }
    }
}

/// Whether a unit list's gaps are the classified boundaries between its consecutive units.
pub open spec fn gaps_between(text: Seq<u8>, list: UnitList) -> bool {
    &&& list.gaps@.len() == if list.units@.len() == 0 {
        0
    } else {
        list.units@.len() - 1
    }
    &&& forall|g: int|
        0 <= g < list.gaps@.len() ==> #[trigger] list.gaps@[g] == spec_classify_gap(
            text,
            list.units@[g].range.end,
            list.units@[g + 1].range.start,
        )
}

/// Whether a block child of a `for` loop, starting where its body starts,
/// holds a statement list without units.
pub open spec fn empty_body_block(els: Seq<Element>, block: int, start: int) -> bool {
    &&& els[block].kind == Kind::BlockExpr
    &&& els[block].range.start == start
    &&& exists|t: int|
        0 <= t < child_nodes(els, block).len() && els[#[trigger] child_nodes(els, block)[t] as int].kind
            == Kind::StmtList && first_pick(
            els,
            child_nodes(els, child_nodes(els, block)[t] as int),
            Pick::Unit,
        ) is None
}

/// Whether a `for` loop's written body has no units.
pub open spec fn spec_empty_loop(els: Seq<Element>, e: int) -> bool {
    &&& els[e].kind == Kind::ForExpr
    &&& crate::syntax::units::spec_body_start(els, e) is Some
    &&& exists|k: int|
        0 <= k < child_nodes(els, e).len() && empty_body_block(
            els,
            #[trigger] child_nodes(els, e)[k] as int,
            crate::syntax::units::spec_body_start(els, e)->0 as int,
        )
}

/// Whether a for loop's written body has no units.
fn empty_loop(tree: &SyntaxTree, e: usize) -> (empty: bool)
    requires
        tree.wf(),
        e < tree.size(),
    ensures
        empty == spec_empty_loop(tree.elements@, e as int),
{
    if tree.elements[e].kind != Kind::ForExpr {
        return false;
    }
    let start = match control_body_start(tree, e) {
        Some(s) => s,
        None => return false,
    };
    let children = tree.children(e);
    let ghost els = tree.elements@;
    let mut k: usize = 0;
    while k < children.len()
        invariant
            tree.wf(),
            els == tree.elements@,
            e < tree.size(),
            els[e as int].kind == Kind::ForExpr,
            children@ == child_nodes(els, e as int),
            Some(start) == crate::syntax::units::spec_body_start(els, e as int),
            forall|j: int| 0 <= j < children@.len() ==> e < #[trigger] children@[j] < tree.size(),
            k <= children@.len(),
            forall|j: int| 0 <= j < k ==> !empty_body_block(els, #[trigger] children@[j] as int, start as int),
        decreases children@.len() - k,
    {
        let child = children[k];
        if tree.elements[child].kind == Kind::BlockExpr && tree.elements[child].range.start == start {
            let lists = tree.children(child);
            let mut j: usize = 0;
            while j < lists.len()
                invariant
                    tree.wf(),
                    els == tree.elements@,
                    e < tree.size(),
                    els[e as int].kind == Kind::ForExpr,
                    children@ == child_nodes(els, e as int),
                    Some(start) == crate::syntax::units::spec_body_start(els, e as int),
                    k < children@.len(),
                    children@[k as int] == child,
                    child < tree.size(),
                    els[child as int].kind == Kind::BlockExpr,
                    els[child as int].range.start == start,
                    lists@ == child_nodes(els, child as int),
                    forall|t: int| 0 <= t < lists@.len() ==> child < #[trigger] lists@[t] < tree.size(),
                    j <= lists@.len(),
                    forall|t: int|
                        0 <= t < j ==> !(els[#[trigger] lists@[t] as int].kind == Kind::StmtList && first_pick(
                            els,
                            child_nodes(els, lists@[t] as int),
                            Pick::Unit,
                        ) is None),
                decreases lists@.len() - j,
            {
                let list = lists[j];
                if tree.elements[list].kind == Kind::StmtList && tree.first_child(list, Pick::Unit).is_none() {
                    proof {
                        assert(child_nodes(els, child as int)[j as int] == list);
                        assert(empty_body_block(els, child as int, start as int));
                        assert(child_nodes(els, e as int)[k as int] == child);
                    }
                    return true;
                }
                j = j + 1;
            }
            proof {
                assert(!empty_body_block(els, child as int, start as int)) by {
                    if empty_body_block(els, child as int, start as int) {
                        let t = choose|t: int|
                            0 <= t < child_nodes(els, child as int).len() && els[#[trigger] child_nodes(
                                els,
                                child as int,
                            )[t] as int].kind == Kind::StmtList && first_pick(
                                els,
                                child_nodes(els, child_nodes(els, child as int)[t] as int),
                                Pick::Unit,
                            ) is None;
                        assert(lists@[t] == child_nodes(els, child as int)[t]);
                    }
                }
            }
        }
        k = k + 1;
    }
    proof {
        if spec_empty_loop(els, e as int) {
            let m = choose|m: int|
                0 <= m < child_nodes(els, e as int).len() && empty_body_block(
                    els,
                    #[trigger] child_nodes(els, e as int)[m] as int,
                    crate::syntax::units::spec_body_start(els, e as int)->0 as int,
                );
            assert(children@[m] == child_nodes(els, e as int)[m]);
        }
    }
    false
}

/// Whether node `i` or a node inside it is a macro invocation.
pub open spec fn spec_holds_macro(els: Seq<Element>, i: int) -> bool {
    exists|j: int|
        i <= j < els[i].end && (#[trigger] els[j]).node && (els[j].kind == Kind::MacroCall || els[j].kind
            == Kind::MacroExpr)
}

/// Whether node `i` or one of its descendants is a macro invocation.
fn holds_macro(tree: &SyntaxTree, i: usize) -> (found: bool)
    requires
        tree.wf(),
        i < tree.size(),
    ensures
        found == spec_holds_macro(tree.elements@, i as int),
{
    let stop = tree.elements[i].end;
    let mut j = i;
    while j < stop
        invariant
            tree.wf(),
            i <= j,
            stop == tree.elements@[i as int].end,
            stop <= tree.size(),
            forall|k: int|
                i <= k < j ==> !((#[trigger] tree.elements@[k]).node && (tree.elements@[k].kind
                    == Kind::MacroCall || tree.elements@[k].kind == Kind::MacroExpr)),
        decreases stop - j,
    {
        if tree.elements[j].node && (tree.elements[j].kind == Kind::MacroCall
            || tree.elements[j].kind == Kind::MacroExpr) {
            return true;
        }
        j = j + 1;
    }
    false
}

/// Whether some header read differs from the checked place.
fn reads_other_than(facts: &Facts, checked: &crate::model::Place) -> (found: bool)
    ensures
        found == exists|k: int|
            0 <= k < facts@.header_reads.len() && #[trigger] facts@.header_reads[k] != checked@,
{
    let mut k: usize = 0;
    while k < facts.header_reads.len()
        invariant
            k <= facts.header_reads@.len(),
            forall|j: int| 0 <= j < k ==> #[trigger] facts@.header_reads[j] == checked@,
        decreases facts.header_reads@.len() - k,
    {
        if !crate::relations::same_place(&facts.header_reads[k], checked) {
            assert(facts@.header_reads[k as int] != checked@);
            return true;
        }
        k = k + 1;
    }
    false
}

/// Whether a unit is the one that node `j` makes: its ranges, category and
/// flags come from the tree, and its anchor from the compiler's anchors.
pub open spec fn unit_of(
    els: Seq<Element>,
    text: Seq<u8>,
    semantics: Option<&SemanticIndex>,
    j: int,
    unit: Unit,
) -> bool {
    &&& unit.range == els[j].range
    &&& unit.code_range == spec_code_range(els, j)
    &&& unit.kind == spec_unit_kind(els, text, j)
    &&& unit.is_tail == (els[j].expression && !els[j].item)
    &&& unit.is_guard == spec_guard(els, text, spec_expression_node(els, j))
    &&& unit.is_empty_loop == spec_empty_loop(els, spec_expression_node(els, j))
    &&& unit.is_loop_exit == spec_loop_exit(els, spec_expression_node(els, j))
    &&& unit.is_bare_return == spec_bare_return(els, spec_expression_node(els, j))
    &&& unit.protected == spec_protected(els, text, j)
    &&& match semantics {
        None => !unit.active && unit.anchor == 0 && unit.enabled@ == Set::<Rule>::empty()
            && !unit.facts.known,
        Some(s) => unit_facts(els, text, s, j, unit.facts@) && match best_anchor(
            s.anchors@,
            unit.code_range,
            s.anchors@.len() as int,
        ) {
            Some(a) => unit.active && unit.anchor == a.id && unit.enabled == a.enabled,
            None => !unit.active && unit.anchor == 0 && unit.enabled@ == Set::<Rule>::empty(),
        },
    }
}

/// Whether a node kind holds items rather than statements.
pub open spec fn item_list_kind(kind: Kind) -> bool {
    kind == Kind::SourceFile || kind == Kind::ItemList || kind == Kind::AssocItemList || kind
        == Kind::ExternItemList
}

/// Whether element `c` holds a unit list: a statement or item list outside
/// macro token trees.
pub open spec fn container_node(els: Seq<Element>, c: int) -> bool {
    els[c].node && (els[c].kind == Kind::StmtList || item_list_kind(els[c].kind))
        && !crate::syntax::protection::spec_in_token_tree(els, c)
}

/// The containers among the first `n` elements, in order.
pub open spec fn containers_before(els: Seq<Element>, n: int) -> Seq<int>
    decreases n,
{
    if n <= 0 {
        Seq::empty()
    } else if container_node(els, n - 1) {
        containers_before(els, n - 1).push(n - 1)
    } else {
        containers_before(els, n - 1)
    }
}

/// Whether a child is a unit of its list: an item of an item list, or a
/// statement or expression of a statement list.
pub open spec fn member(els: Seq<Element>, j: int, item_list: bool) -> bool {
    if item_list {
        els[j].item
    } else {
        crate::syntax::tree::unit_element(els[j])
    }
}

/// The children of a list that are its units, in order.
pub open spec fn members_among(els: Seq<Element>, list: Seq<usize>, item_list: bool) -> Seq<usize>
    decreases list.len(),
{
    if list.len() == 0 {
        Seq::empty()
    } else if member(els, list.last() as int, item_list) {
        members_among(els, list.drop_last(), item_list).push(list.last())
    } else {
        members_among(els, list.drop_last(), item_list)
    }
}

/// The units that the members of a container make, one for one.
pub open spec fn units_of(
    els: Seq<Element>,
    text: Seq<u8>,
    semantics: Option<&SemanticIndex>,
    members: Seq<usize>,
    units: Seq<Unit>,
) -> bool {
    &&& units.len() == members.len()
    &&& forall|u: int| 0 <= u < units.len() ==> unit_of(els, text, semantics, members[u] as int, #[trigger] units[u])
}

/// Whether a unit list is the one that container `c` makes.
pub open spec fn list_of(
    els: Seq<Element>,
    text: Seq<u8>,
    semantics: Option<&SemanticIndex>,
    c: int,
    list: UnitList,
) -> bool {
    &&& list.item_list == item_list_kind(els[c].kind)
    &&& units_of(
        els,
        text,
        semantics,
        members_among(els, child_nodes(els, c), item_list_kind(els[c].kind)),
        list.units@,
    )
}

/// The region of a unit whose reads form its header: a control unit's head up to
/// its body, or a `let` up to its `else` block.
pub open spec fn unit_header(els: Seq<Element>, text: Seq<u8>, i: int) -> Option<ByteRange> {
    let code = spec_code_range(els, i);
    let kind = spec_unit_kind(els, text, i);
    if kind == UnitKind::Control {
        Some(
            ByteRange {
                start: code.start,
                end: match spec_body_start(els, spec_expression_node(els, i)) {
                    Some(start) => start,
                    None => code.end,
                },
            },
        )
    } else if kind == UnitKind::Let {
        Some(
            ByteRange {
                start: code.start,
                end: match first_pick(els, child_nodes(els, i), Pick::Kind(Kind::LetElse)) {
                    Some(body) => els[body as int].range.start,
                    None => code.end,
                },
            },
        )
    } else {
        None
    }
}

/// The pattern of a `let` unit, where its definitions are gathered.
pub open spec fn unit_declaration(els: Seq<Element>, text: Seq<u8>, i: int) -> Option<ByteRange> {
    if spec_unit_kind(els, text, i) == UnitKind::Let {
        match first_pick(els, child_nodes(els, i), Pick::Pattern) {
            Some(pattern) => Some(els[pattern as int].range),
            None => None,
        }
    } else {
        None
    }
}

/// Whether expression `e` is an `if` whose condition is neither a `let` nor a
/// method call, so it checks no produced value.
pub open spec fn plain_if(els: Seq<Element>, e: int) -> bool {
    els[e].kind == Kind::IfExpr && match first_pick(els, child_nodes(els, e), Pick::Expression) {
        Some(condition) => !(els[condition as int].kind == Kind::LetExpr || els[condition as int].kind
            == Kind::MethodCallExpr),
        None => true,
    }
}

/// Whether `facts` are those of the unit that node `j` makes: gathered from the
/// compiler's events over its code span, with its header, pattern and first body
/// statements as regions and deferred bodies left out, opaque when it holds a macro
/// or a deferred body; and checking the place the events check, unless the unit is
/// a plain `if` or its header reads another place as well.
pub open spec fn unit_facts(
    els: Seq<Element>,
    text: Seq<u8>,
    s: &SemanticIndex,
    j: int,
    facts: crate::model::FactsView,
) -> bool {
    let code = spec_code_range(els, j);
    let e = spec_expression_node(els, j);
    let deferred = spec_deferred(els, text, j);
    let header = unit_header(els, text, j);
    let checked = inspection(s.events@, code, deferred, header, s.events@.len() as int).0;
    &&& facts_gathered(
        s.events@,
        code,
        unit_declaration(els, text, j),
        header,
        spec_body_first(els, e),
        deferred,
        spec_holds_macro(els, j) || deferred.len() > 0,
        facts,
    )
    &&& facts.check_of == if plain_if(els, e) || (checked matches Some(c) && exists|k: int|
        0 <= k < facts.header_reads.len() && #[trigger] facts.header_reads[k] != c) {
        None
    } else {
        checked
    }
}

/// The spacing unit of a direct syntax node, with the compiler facts of its span.
pub fn make_unit(
    tree: &SyntaxTree,
    source: &str,
    i: usize,
    semantics: Option<&SemanticIndex>,
) -> (unit: Unit)
    requires
        tree.wf(),
        i < tree.size(),
        tree.text@ == encode_utf8(source@),
    ensures
        unit.range == tree.elements@[i as int].range,
        unit.code_range == spec_code_range(tree.elements@, i as int),
        unit.kind == spec_unit_kind(tree.elements@, tree.text@, i as int),
        unit.is_tail == (tree.elements@[i as int].expression && !tree.elements@[i as int].item),
        unit.is_guard == spec_guard(
            tree.elements@,
            tree.text@,
            spec_expression_node(tree.elements@, i as int),
        ),
        unit.is_loop_exit == spec_loop_exit(
            tree.elements@,
            spec_expression_node(tree.elements@, i as int),
        ),
        unit.is_bare_return == spec_bare_return(
            tree.elements@,
            spec_expression_node(tree.elements@, i as int),
        ),
        unit.protected == spec_protected(tree.elements@, tree.text@, i as int),
        unit_of(tree.elements@, tree.text@, semantics, i as int, unit),
        match semantics {
            None => !unit.active && unit.anchor == 0 && unit.enabled@ == Set::<Rule>::empty()
                && !unit.facts.known,
            Some(s) => match best_anchor(s.anchors@, unit.code_range, s.anchors@.len() as int) {
                Some(a) => unit.active && unit.anchor == a.id && unit.enabled == a.enabled,
                None => !unit.active && unit.anchor == 0 && unit.enabled@ == Set::<Rule>::empty(),
            },
        },
        semantics matches Some(s) ==> unit_facts(tree.elements@, tree.text@, s, i as int, unit.facts@),
{
    let bytes = source.as_bytes();
    let code = code_range(tree, i);
    let expression = expression_node(tree, i);
    let category = unit_kind(tree, bytes, i);
    let header = if category == UnitKind::Control {
        let end = match control_body_start(tree, expression) {
            Some(s) => s,
            None => code.end,
        };
        Some(ByteRange::new(code.start, end))
    } else if category == UnitKind::Let {
        let end = match tree.first_child(i, Pick::Kind(Kind::LetElse)) {
            Some(body) => tree.elements[body].range.start,
            None => code.end,
        };
        Some(ByteRange::new(code.start, end))
    } else {
        None
    };
    let declaration = if category == UnitKind::Let {
        match tree.first_child(i, Pick::Pattern) {
            Some(pattern) => Some(tree.elements[pattern].range),
            None => None,
        }
    } else {
        None
    };
    assert(header == unit_header(tree.elements@, tree.text@, i as int));
    assert(declaration == unit_declaration(tree.elements@, tree.text@, i as int));
    let deferred = deferred_ranges(tree, bytes, i);
    let opaque = holds_macro(tree, i) || deferred.len() > 0;
    let first = immediate_body_first(tree, expression);
    let anchor = match semantics {
        Some(s) => s.anchor(code),
        None => None,
    };
    let mut facts = match semantics {
        Some(s) => s.facts(code, declaration, header, first.as_slice(), deferred.as_slice(), opaque),
        None => Facts::default(),
    };
    let ghost gathered = facts@;
    if tree.elements[expression].kind == Kind::IfExpr {
        let plain = match tree.first_child(expression, Pick::Expression) {
            Some(condition) => !(tree.elements[condition].kind == Kind::LetExpr
                || tree.elements[condition].kind == Kind::MethodCallExpr),
            None => true,
        };
        if plain {
            facts.check_of = None;
        }
    }
    let mixed = match &facts.check_of {
        Some(checked) => reads_other_than(&facts, checked),
        None => false,
    };
    if mixed {
        facts.check_of = None;
    }
    proof {
        if let Some(s) = semantics {
            assert(facts_gathered(
                s.events@,
                code,
                declaration,
                header,
                first@,
                deferred@,
                opaque,
                gathered,
            ));
            assert(facts@.known == gathered.known);
            assert(facts@.definitions == gathered.definitions);
            assert(facts@.reads == gathered.reads);
            assert(facts@.writes == gathered.writes);
            assert(facts@.receivers == gathered.receivers);
            assert(facts@.mutating_receivers == gathered.mutating_receivers);
            assert(facts@.direct_callees == gathered.direct_callees);
            assert(facts@.header_reads == gathered.header_reads);
            assert(facts@.first_body_reads == gathered.first_body_reads);
            assert(facts@.whole_body_reads == gathered.whole_body_reads);
            assert(facts_gathered(s.events@, code, declaration, header, first@, deferred@, opaque, facts@));
        }
    }
    let valueless = tree.first_child(expression, Pick::Expression).is_none();
    let expression_kind = tree.elements[expression].kind;
    Unit {
        range: tree.elements[i].range,
        code_range: code,
        kind: category,
        is_tail: tree.elements[i].expression && !tree.elements[i].item,
        is_guard: guard(tree, bytes, expression),
        is_empty_loop: empty_loop(tree, expression),
        is_loop_exit: (expression_kind == Kind::BreakExpr || expression_kind == Kind::ContinueExpr)
            && valueless,
        is_bare_return: expression_kind == Kind::ReturnExpr && valueless,
        active: anchor.is_some(),
        protected: protected(tree, bytes, i),
        facts,
        enabled: match anchor {
            Some(a) => a.enabled,
            None => RuleMask::none(),
        },
        anchor: match anchor {
            Some(a) => a.id,
            None => 0,
        },
    }
}

/// Whether `source[start..end]` is a character-aligned run of trivia.
fn trivia_between(source: &str, start: usize, end: usize) -> (trivia: bool)
    ensures
        trivia == (char_range(encode_utf8(source@), start as int, end as int) && all_trivia(
            encode_utf8(source@).subrange(start as int, end as int),
        )),
{
    let bytes = source.as_bytes();
    if !(start <= end && end <= bytes.len() && source.is_char_boundary(start)
        && source.is_char_boundary(end)) {
        return false;
    }
    bytes_are_trivia(slice_of(bytes, start, end))
}

/// The whitespace after each attribute among `list`, from position `p` on, that no
/// comment follows, anchored at `anchor`.
pub open spec fn attribute_pads(els: Seq<Element>, list: Seq<usize>, anchor: usize, p: int) -> Seq<
    (ByteRange, usize),
>
    decreases list.len() - p,
{
    if p < 0 || list.len() - p <= 2 {
        Seq::empty()
    } else {
        let attribute = els[list[p] as int];
        let space = els[list[p + 1] as int];
        let next = els[list[p + 2] as int];
        let here = if attribute.node && attribute.kind == Kind::Attr && !space.node && space.kind
            == Kind::Whitespace && next.kind != Kind::Comment {
            seq![(space.range, anchor)]
        } else {
            Seq::empty()
        };
        here + attribute_pads(els, list, anchor, p + 1)
    }
}

/// Adds the whitespace after each attribute of node `i` that no comment follows.
fn push_attribute_padding(
    tree: &SyntaxTree,
    i: usize,
    anchor: usize,
    edges: &mut Vec<(ByteRange, usize)>,
)
    requires
        tree.wf(),
        i < tree.size(),
    ensures
        final(edges)@ == old(edges)@ + attribute_pads(
            tree.elements@,
            spec_children(tree.elements@, i as int),
            anchor,
            0,
        ),
{
    let list = tree.children_with_tokens(i);
    let ghost els = tree.elements@;
    let ghost whole = old(edges)@ + attribute_pads(els, list@, anchor, 0);
    let mut p: usize = 0;
    proof {
        assert(edges@ + attribute_pads(els, list@, anchor, 0) =~= whole);
    }
    while p < list.len() && list.len() - p > 2
        invariant
            tree.wf(),
            els == tree.elements@,
            p <= list@.len(),
            forall|j: int| 0 <= j < list@.len() ==> i < #[trigger] list@[j] < tree.size(),
            edges@ + attribute_pads(els, list@, anchor, p as int) == whole,
        decreases list@.len() - p,
    {
        let attribute = list[p];
        let space = list[p + 1];
        let next = list[p + 2];
        let ghost before = edges@;
        if tree.elements[attribute].node && tree.elements[attribute].kind == Kind::Attr
            && !tree.elements[space].node && tree.elements[space].kind == Kind::Whitespace
            && tree.elements[next].kind != Kind::Comment {
            edges.push((tree.elements[space].range, anchor));
            proof {
                assert(edges@ + attribute_pads(els, list@, anchor, p + 1) =~= before + attribute_pads(
                    els,
                    list@,
                    anchor,
                    p as int,
                ));
            }
        } else {
            proof {
                assert(edges@ + attribute_pads(els, list@, anchor, p + 1) =~= before + attribute_pads(
                    els,
                    list@,
                    anchor,
                    p as int,
                ));
            }
        }
        p = p + 1;
    }
    proof {
        assert(attribute_pads(els, list@, anchor, p as int) =~= Seq::<(ByteRange, usize)>::empty());
        assert(edges@ =~= whole);
    }
}

/// Whether a unit may lose its padding: it is active and unprotected, and the
/// layout rule is enabled at it.
pub open spec fn layout_on(unit: Unit) -> bool {
    unit.active && !unit.protected && unit.enabled@.contains(Rule::Layout)
}

/// The attribute padding of the first `n` units of a container, whose nodes are
/// `members`, in unit order.
pub open spec fn unit_pads(els: Seq<Element>, members: Seq<usize>, units: Seq<Unit>, n: int) -> Seq<
    (ByteRange, usize),
>
    decreases n,
{
    if n <= 0 {
        Seq::empty()
    } else {
        unit_pads(els, members, units, n - 1) + if layout_on(units[n - 1]) {
            attribute_pads(els, spec_children(els, members[n - 1] as int), units[n - 1].anchor, 0)
        } else {
            Seq::empty()
        }
    }
}

/// Extending the units and their nodes leaves the padding of the earlier units.
proof fn lemma_unit_pads_push(
    els: Seq<Element>,
    members: Seq<usize>,
    units: Seq<Unit>,
    member: usize,
    unit: Unit,
    n: int,
)
    requires
        n <= members.len(),
        n <= units.len(),
    ensures
        unit_pads(els, members.push(member), units.push(unit), n) == unit_pads(els, members, units, n),
    decreases n,
{
    if n > 0 {
        lemma_unit_pads_push(els, members, units, member, unit, n - 1);
    }
}

/// Whether `range` is a character range of `text` that holds only trivia.
pub open spec fn padding(text: Seq<u8>, range: ByteRange) -> bool {
    char_range(text, range.start as int, range.end as int) && all_trivia(
        text.subrange(range.start as int, range.end as int),
    )
}

/// The padding inside the braces of an unprotected statement list: before its
/// first unit and after its last, for units at which it may be removed.
pub open spec fn block_pads(els: Seq<Element>, text: Seq<u8>, c: int, units: Seq<Unit>) -> Seq<
    (ByteRange, usize),
> {
    if els[c].kind == Kind::StmtList && units.len() > 0 && !spec_protected(els, text, c) {
        match (
            first_token_among(els, text, spec_children(els, c), encode_utf8("{"@)),
            first_token_among(els, text, spec_children(els, c), encode_utf8("}"@)),
        ) {
            (Some(left), Some(right)) => {
                let first = units[0];
                let last = units[units.len() - 1];
                let opening = ByteRange { start: els[left as int].range.end, end: first.range.start };
                let closing = ByteRange { start: last.range.end, end: els[right as int].range.start };
                (if layout_on(first) && padding(text, opening) {
                    seq![(opening, first.anchor)]
                } else {
                    Seq::empty()
                }) + if layout_on(last) && padding(text, closing) {
                    seq![(closing, last.anchor)]
                } else {
                    Seq::empty()
                }
            },
            _ => Seq::empty(),
        }
    } else {
        Seq::empty()
    }
}

/// The removable padding of the unit list that container `c` makes: after the
/// attributes of its units, then inside its braces.
pub open spec fn list_edges(els: Seq<Element>, text: Seq<u8>, c: int, list: UnitList) -> Seq<(ByteRange, usize)> {
    unit_pads(
        els,
        members_among(els, child_nodes(els, c), item_list_kind(els[c].kind)),
        list.units@,
        list.units@.len() as int,
    ) + block_pads(els, text, c, list.units@)
}

/// The removable padding of the unit lists that `containers` make, list by list.
pub open spec fn lists_edges(els: Seq<Element>, text: Seq<u8>, containers: Seq<int>, lists: Seq<UnitList>) -> Seq<
    (ByteRange, usize),
>
    decreases lists.len(),
{
    if lists.len() == 0 {
        Seq::empty()
    } else {
        lists_edges(els, text, containers.drop_last(), lists.drop_last()) + list_edges(
            els,
            text,
            containers.last(),
            lists.last(),
        )
    }
}

/// Whether a unit may lose its padding.
fn layout_enabled(unit: &Unit) -> (enabled: bool)
    ensures
        enabled == layout_on(*unit),
{
    unit.active && !unit.protected && unit.enabled.has(Rule::Layout)
}

/// The units of a container: its item children, or its statement children.
fn container_units(
    tree: &SyntaxTree,
    source: &str,
    container: usize,
    item_list: bool,
    semantics: Option<&SemanticIndex>,
    edges: &mut Vec<(ByteRange, usize)>,
) -> (units: Vec<Unit>)
    requires
        tree.wf(),
        container < tree.size(),
        tree.text@ == encode_utf8(source@),
    ensures
        semantics is None ==> final(edges)@ == old(edges)@ && forall|u: int|
            0 <= u < units@.len() ==> !(#[trigger] units@[u]).active,
        units_of(
            tree.elements@,
            tree.text@,
            semantics,
            members_among(tree.elements@, child_nodes(tree.elements@, container as int), item_list),
            units@,
        ),
        final(edges)@ == old(edges)@ + unit_pads(
            tree.elements@,
            members_among(tree.elements@, child_nodes(tree.elements@, container as int), item_list),
            units@,
            units@.len() as int,
        ),
{
    let children = tree.children(container);
    let mut units: Vec<Unit> = Vec::new();
    let mut k: usize = 0;
    while k < children.len()
        invariant
            tree.wf(),
            tree.text@ == encode_utf8(source@),
            forall|j: int| 0 <= j < children@.len() ==> container < #[trigger] children@[j] < tree.size(),
            k <= children@.len(),
            semantics is None ==> edges@ == old(edges)@ && forall|u: int|
                0 <= u < units@.len() ==> !(#[trigger] units@[u]).active,
            children@ == child_nodes(tree.elements@, container as int),
            units_of(
                tree.elements@,
                tree.text@,
                semantics,
                members_among(tree.elements@, children@.take(k as int), item_list),
                units@,
            ),
            edges@ == old(edges)@ + unit_pads(
                tree.elements@,
                members_among(tree.elements@, children@.take(k as int), item_list),
                units@,
                units@.len() as int,
            ),
        decreases children@.len() - k,
    {
        let node = children[k];
        proof {
            assert(children@.take(k + 1).drop_last() =~= children@.take(k as int));
            assert(children@.take(k + 1).last() == node);
        }
        let ghost before = units@;
        let ghost edges_before = edges@;
        let ghost members_before = members_among(tree.elements@, children@.take(k as int), item_list);
        let member = if item_list {
            tree.elements[node].item
        } else {
            is_unit(tree, node)
        };
        if member {
            let unit = make_unit(tree, source, node, semantics);
            if layout_enabled(&unit) {
                push_attribute_padding(tree, node, unit.anchor, edges);
            }
            units.push(unit);
            proof {
                let m = members_among(tree.elements@, children@.take(k + 1), item_list);
                assert(m == members_before.push(node));
                lemma_unit_pads_push(
                    tree.elements@,
                    members_before,
                    before,
                    node,
                    unit,
                    before.len() as int,
                );
                assert(edges@ =~= old(edges)@ + unit_pads(tree.elements@, m, units@, units@.len() as int));
                assert forall|u: int| 0 <= u < units@.len() implies unit_of(
                    tree.elements@,
                    tree.text@,
                    semantics,
                    m[u] as int,
                    #[trigger] units@[u],
                ) by {
                    if u < before.len() {
                        assert(units@[u] == before[u]);
                    }
                }
            }
        }
        k = k + 1;
    }
    proof {
        assert(children@.take(k as int) =~= children@);
    }
    units
}

/// The classified gaps between consecutive units.
fn unit_gaps(source: &str, units: &Vec<Unit>) -> (gaps: Vec<crate::model::Gap>)
    ensures
        gaps@.len() == if units@.len() == 0 {
            0
        } else {
            units@.len() - 1
        },
        forall|g: int|
            0 <= g < gaps@.len() ==> #[trigger] gaps@[g] == spec_classify_gap(
                encode_utf8(source@),
                units@[g].range.end,
                units@[g + 1].range.start,
            ),
{
    let mut gaps: Vec<crate::model::Gap> = Vec::new();
    if units.len() == 0 {
        return gaps;
    }
    let mut g: usize = 0;
    while g < units.len() - 1
        invariant
            units@.len() > 0,
            g + 1 <= units@.len(),
            gaps@.len() == g,
            forall|t: int|
                0 <= t < g ==> #[trigger] gaps@[t] == spec_classify_gap(
                    encode_utf8(source@),
                    units@[t].range.end,
                    units@[t + 1].range.start,
                ),
        decreases units@.len() - g,
    {
        gaps.push(classify_gap(source, units[g].range, units[g + 1].range));
        g = g + 1;
    }
    gaps
}

/// The number of units that are not items.
fn count_executable(units: &Vec<Unit>) -> (count: usize)
    ensures
        count == executable_units(units@),
{
    let mut count: usize = 0;
    let mut k: usize = 0;
    while k < units.len()
        invariant
            k <= units@.len(),
            count == executable_units(units@.subrange(0, k as int)),
            count <= k,
        decreases units@.len() - k,
    {
        proof {
            assert(units@.subrange(0, k + 1).drop_last() =~= units@.subrange(0, k as int));
        }
        if !units[k].kind.is_item() {
            count = count + 1;
        }
        k = k + 1;
    }
    proof {
        assert(units@.subrange(0, units@.len() as int) =~= units@);
    }
    count
}

/// Adds the padding inside the braces of statement list `container`, before its
/// first unit and after its last, where it may be removed.
fn push_block_padding(
    tree: &SyntaxTree,
    source: &str,
    container: usize,
    units: &Vec<Unit>,
    edges: &mut Vec<(ByteRange, usize)>,
)
    requires
        tree.wf(),
        container < tree.size(),
        tree.text@ == encode_utf8(source@),
    ensures
        final(edges)@ == old(edges)@ + block_pads(tree.elements@, tree.text@, container as int, units@),
{
    let bytes = source.as_bytes();
    let ghost start = edges@;
    if tree.elements[container].kind == Kind::StmtList && units.len() > 0 && !protected(
        tree,
        bytes,
        container,
    ) {
        let left = tree.first_token(bytes, container, "{");
        let right = tree.first_token(bytes, container, "}");
        if let (Some(left), Some(right)) = (left, right) {
            let first = &units[0];
            let last = &units[units.len() - 1];
            let opening = ByteRange::new(tree.elements[left].range.end, first.range.start);
            if layout_enabled(first) && trivia_between(source, opening.start, opening.end) {
                edges.push((opening, first.anchor));
            }
            let ghost middle = edges@;
            let closing = ByteRange::new(last.range.end, tree.elements[right].range.start);
            if layout_enabled(last) && trivia_between(source, closing.start, closing.end) {
                edges.push((closing, last.anchor));
            }
            proof {
                assert(edges@ =~= start + block_pads(tree.elements@, tree.text@, container as int, units@));
            }
        } else {
            assert(edges@ =~= start + block_pads(tree.elements@, tree.text@, container as int, units@));
        }
    } else {
        assert(edges@ =~= start + block_pads(tree.elements@, tree.text@, container as int, units@));
    }
}

/// Builds the spacing model of a parsed file, using compiler anchors and facts
/// when they are given; without them every unit stays inactive.
#[verifier::spinoff_prover]
#[verifier::rlimit(60)]
pub fn lower(tree: &SyntaxTree, source: &str, semantics: Option<&SemanticIndex>) -> (model:
    SourceModel)
    requires
        tree.wf(),
        tree.text@ == encode_utf8(source@),
    ensures
        forall|l: int|
            0 <= l < model.lists@.len() ==> gaps_between(tree.text@, #[trigger] model.lists@[l])
                && model.lists@[l].executable_count == executable_units(model.lists@[l].units@),
        semantics is None ==> inactive(model),
        lowered(tree.elements@, tree.text@, semantics, model),
{
    let bytes = source.as_bytes();
    let mut lists: Vec<UnitList> = Vec::new();
    let mut edges: Vec<(ByteRange, usize)> = Vec::new();
    let mut container: usize = 0;
    while container < tree.elements.len()
        invariant
            tree.wf(),
            tree.text@ == encode_utf8(source@),
            bytes@ == tree.text@,
            forall|l: int|
                0 <= l < lists@.len() ==> gaps_between(tree.text@, #[trigger] lists@[l])
                    && lists@[l].executable_count == executable_units(lists@[l].units@),
            semantics is None ==> edges@.len() == 0 && forall|l: int, u: int|
                0 <= l < lists@.len() && 0 <= u < lists@[l].units@.len()
                    ==> !(#[trigger] lists@[l].units@[u]).active,
            container <= tree.elements@.len(),
            lists@.len() == containers_before(tree.elements@, container as int).len(),
            forall|l: int|
                0 <= l < lists@.len() ==> list_of(
                    tree.elements@,
                    tree.text@,
                    semantics,
                    containers_before(tree.elements@, container as int)[l],
                    #[trigger] lists@[l],
                ),
            edges@ == lists_edges(
                tree.elements@,
                tree.text@,
                containers_before(tree.elements@, container as int),
                lists@,
            ),
        decreases tree.size() - container,
    {
        let ghost before = lists@;
        let kind = tree.elements[container].kind;
        let item_list = kind == Kind::SourceFile || kind == Kind::ItemList || kind
            == Kind::AssocItemList || kind == Kind::ExternItemList;
        if tree.elements[container].node && (kind == Kind::StmtList || item_list)
            && !inside_token_tree(tree, container) {
            let ghost edges_start = edges@;
            let units = container_units(tree, source, container, item_list, semantics, &mut edges);
            let ghost pads_end = edges@;
            let gaps = unit_gaps(source, &units);
            let count = count_executable(&units);
            push_block_padding(tree, source, container, &units, &mut edges);
            let list = UnitList { units, gaps, executable_count: count, item_list };
            proof {
                assert(gaps_between(tree.text@, list));
                assert(edges@ =~= edges_start + list_edges(tree.elements@, tree.text@, container as int, list));
            }
            lists.push(list);
            proof {
                let cs = containers_before(tree.elements@, container + 1);
                assert(cs == containers_before(tree.elements@, container as int).push(container as int));
                assert(cs.drop_last() =~= containers_before(tree.elements@, container as int));
                assert(lists@.drop_last() =~= before);
                assert forall|l: int| 0 <= l < lists@.len() implies list_of(
                    tree.elements@,
                    tree.text@,
                    semantics,
                    cs[l],
                    #[trigger] lists@[l],
                ) by {
                    if l < before.len() {
                        assert(lists@[l] == before[l]);
                    }
                }
            }
        }
        container = container + 1;
    }
    SourceModel { lists, layout_edges: edges }
}

/// Whether a model is the lowering of a tree: one unit list per container, in
/// order, each made of the units its members make, and the removable padding of
/// those lists.
pub open spec fn lowered(
    els: Seq<Element>,
    text: Seq<u8>,
    semantics: Option<&SemanticIndex>,
    model: SourceModel,
) -> bool {
    let containers = containers_before(els, els.len() as int);
    &&& model.lists@.len() == containers.len()
    &&& forall|l: int|
        0 <= l < model.lists@.len() ==> list_of(els, text, semantics, containers[l], #[trigger] model.lists@[l])
    &&& model.layout_edges@ == lists_edges(els, text, containers, model.lists@)
}

/// Whether no unit of a model is mapped to active compiler code and no padding is removable.
pub open spec fn inactive(model: SourceModel) -> bool {
    &&& model.layout_edges@.len() == 0
    &&& forall|l: int, u: int|
        0 <= l < model.lists@.len() && 0 <= u < model.lists@[l].units@.len()
            ==> !(#[trigger] model.lists@[l].units@[u]).active
}

} // verus!
