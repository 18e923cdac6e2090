//! Direct source units: their categories, code spans, written bodies and
//! deferred interiors.
use vstd::prelude::*;
use vstd::utf8::encode_utf8;

use crate::model::{ByteRange, ItemKind, UnitKind};
use crate::syntax::tree::{
    child_nodes, element_text, first_pick, first_pick_from, has_token_text, pick_all, spec_children, Kind, Pick,
    SyntaxTree,
};
use crate::syntax::tree::Element;

verus! {

/// The expression that a statement wraps, or the node itself.
pub open spec fn spec_expression_node(els: Seq<Element>, i: int) -> int {
    if els[i].kind == Kind::ExprStmt {
        match first_pick(els, child_nodes(els, i), Pick::Expression) {
            Some(c) => c as int,
            None => i,
        }
    } else {
        i
    }
}

/// The spacing category of an item node.
pub open spec fn spec_item_kind(els: Seq<Element>, i: int) -> ItemKind {
    match els[i].kind {
        Kind::Fn => if first_pick(els, child_nodes(els, i), Pick::Kind(Kind::BlockExpr)) is Some {
            ItemKind::Function
        } else {
            ItemKind::Compact
        },
        Kind::Module => if first_pick(els, child_nodes(els, i), Pick::Kind(Kind::ItemList)) is Some {
            ItemKind::Major
        } else {
            ItemKind::Module
        },
        Kind::Use | Kind::ExternCrate => ItemKind::Import,
        Kind::Const | Kind::Static => ItemKind::Constant,
        Kind::TypeAlias => ItemKind::Alias,
        Kind::MacroCall | Kind::MacroRules | Kind::MacroDef => ItemKind::Opaque,
        _ => ItemKind::Major,
    }
}

/// The search for a child of some kind from position `k` on finds one exactly
/// when some child from there on has that kind.
proof fn lemma_first_kind_from(els: Seq<Element>, list: Seq<usize>, kind: Kind, k: int)
    requires
        0 <= k,
    ensures
        first_pick_from(els, list, Pick::Kind(kind), k) is Some <==> exists|m: int|
            k <= m < list.len() && els[#[trigger] list[m] as int].kind == kind,
    decreases list.len() - k,
{
    if k < list.len() {
        lemma_first_kind_from(els, list, kind, k + 1);
        if exists|m: int| k <= m < list.len() && els[#[trigger] list[m] as int].kind == kind {
            let m = choose|m: int| k <= m < list.len() && els[#[trigger] list[m] as int].kind == kind;
            if m > k {
                assert(k + 1 <= m);
            }
        }
    }
}

/// A function item is a `Function` exactly when one of its child nodes is a
/// block (its body); a function without a body, such as a trait method
/// signature, is a compact declaration.
pub proof fn lemma_function_kind(els: Seq<Element>, i: int)
    requires
        els[i].kind == Kind::Fn,
    ensures
        (exists|m: int|
            0 <= m < child_nodes(els, i).len() && els[#[trigger] child_nodes(els, i)[m] as int].kind
                == Kind::BlockExpr) ==> spec_item_kind(els, i) == ItemKind::Function,
        (forall|m: int|
            0 <= m < child_nodes(els, i).len() ==> els[#[trigger] child_nodes(els, i)[m] as int].kind
                != Kind::BlockExpr) ==> spec_item_kind(els, i) == ItemKind::Compact,
{
    lemma_first_kind_from(els, child_nodes(els, i), Kind::BlockExpr, 0);
}

/// Whether a token's text is an assignment or compound-assignment operator.
pub open spec fn assignment_operator(word: Seq<u8>) -> bool {
    ||| word == encode_utf8("="@)
    ||| word == encode_utf8("+="@)
    ||| word == encode_utf8("-="@)
    ||| word == encode_utf8("*="@)
    ||| word == encode_utf8("/="@)
    ||| word == encode_utf8("%="@)
    ||| word == encode_utf8("&="@)
    ||| word == encode_utf8("|="@)
    ||| word == encode_utf8("^="@)
    ||| word == encode_utf8("<<="@)
    ||| word == encode_utf8(">>="@)
}

/// Whether some token child of element `i` is an assignment operator.
pub open spec fn has_assignment_token(els: Seq<Element>, text: Seq<u8>, i: int) -> bool {
    exists|k: int|
        0 <= k < spec_children(els, i).len() && !els[spec_children(els, i)[k] as int].node
            && assignment_operator(element_text(text, els[#[trigger] spec_children(els, i)[k] as int]))
}

/// The spacing category of a direct unit.
pub open spec fn spec_unit_kind(els: Seq<Element>, text: Seq<u8>, i: int) -> UnitKind {
    if els[i].item {
        UnitKind::Item(spec_item_kind(els, i))
    } else if els[i].kind == Kind::LetStmt {
        UnitKind::Let
    } else {
        let e = spec_expression_node(els, i);
        match els[e].kind {
            Kind::IfExpr | Kind::ForExpr | Kind::WhileExpr | Kind::LoopExpr | Kind::MatchExpr => {
                UnitKind::Control
            },
            Kind::BlockExpr => UnitKind::Block,
            Kind::ReturnExpr | Kind::BreakExpr | Kind::ContinueExpr => UnitKind::Exit,
            Kind::MacroExpr | Kind::MacroCall => UnitKind::Opaque,
            Kind::BinExpr => if has_assignment_token(els, text, e) {
                UnitKind::Assignment
            } else {
                UnitKind::Expression
            },
            _ => UnitKind::Expression,
        }
    }
}

/// Where a node's code starts: past its attributes and leading trivia; for an
/// expression statement, where its expression's code starts.
pub open spec fn spec_code_start(els: Seq<Element>, i: int) -> usize
    decreases els.len() - i,
{
    if 0 <= i < els.len() {
        let inner = first_pick(els, child_nodes(els, i), Pick::Expression);
        if els[i].kind == Kind::ExprStmt && inner is Some && i < inner->0 < els.len() {
            spec_code_start(els, inner->0 as int)
        } else {
            match first_pick(els, spec_children(els, i), Pick::Code) {
                Some(c) => els[c as int].range.start,
                None => els[i].range.start,
            }
        }
    } else {
        0
    }
}

/// A node's code span: from where its code starts to its end.
pub open spec fn spec_code_range(els: Seq<Element>, i: int) -> ByteRange {
    ByteRange { start: spec_code_start(els, i), end: els[i].range.end }
}

/// Where the written body of a control expression starts.
pub open spec fn spec_body_start(els: Seq<Element>, e: int) -> Option<usize> {
    let exprs = pick_all(els, child_nodes(els, e), Pick::Expression);
    match els[e].kind {
        Kind::IfExpr => if exprs.len() > 1 {
            Some(els[exprs[1] as int].range.start)
        } else {
            None
        },
        Kind::ForExpr | Kind::WhileExpr | Kind::LoopExpr => if exprs.len() > 0 {
            Some(els[exprs.last() as int].range.start)
        } else {
            None
        },
        Kind::MatchExpr => match first_pick(els, child_nodes(els, e), Pick::Kind(Kind::MatchArmList)) {
            Some(c) => Some(els[c as int].range.start),
            None => None,
        },
        _ => None,
    }
}

/// Whether an expression is a single-branch `if` whose only body unit is an exit.
pub open spec fn spec_guard(els: Seq<Element>, text: Seq<u8>, e: int) -> bool {
    if els[e].kind != Kind::IfExpr {
        false
    } else {
        match spec_body_start(els, e) {
            None => false,
            Some(start) => {
                let blocks = pick_all(els, child_nodes(els, e), Pick::BlockFrom(start));
                if blocks.len() != 1 || has_token_text(els, text, e, encode_utf8("else"@)) {
                    false
                } else {
                    match first_pick(els, child_nodes(els, blocks[0] as int), Pick::Kind(Kind::StmtList)) {
                        None => false,
                        Some(list) => {
                            let units = pick_all(els, child_nodes(els, list as int), Pick::Unit);
                            units.len() == 1 && spec_unit_kind(els, text, units[0] as int)
                                == UnitKind::Exit
                        },
                    }
                }
            },
        }
    }
}

/// Whether a node's interior runs later or elsewhere: a closure, a nested
/// function, or an async block.
pub open spec fn deferred_element(els: Seq<Element>, text: Seq<u8>, j: int) -> bool {
    els[j].node && (els[j].kind == Kind::ClosureExpr || els[j].kind == Kind::Fn || (els[j].kind
        == Kind::BlockExpr && has_token_text(els, text, j, encode_utf8("async"@))))
}

/// The ranges of deferred nodes among the elements `j..stop`, in order.
pub open spec fn deferred_from(els: Seq<Element>, text: Seq<u8>, j: int, stop: int) -> Seq<ByteRange>
    decreases stop - j,
{
    if j < 0 || j >= stop || j >= els.len() {
        Seq::empty()
    } else if deferred_element(els, text, j) {
        seq![els[j].range] + deferred_from(els, text, j + 1, stop)
    } else {
        deferred_from(els, text, j + 1, stop)
    }
}

/// The ranges of the deferred descendants of a node, in order.
pub open spec fn spec_deferred(els: Seq<Element>, text: Seq<u8>, i: int) -> Seq<ByteRange> {
    deferred_from(els, text, i + 1, els[i].end as int)
}

/// The range of a unit's direct operation: its code up to its written body.
pub open spec fn spec_direct_operation(els: Seq<Element>, u: int) -> ByteRange {
    let e = spec_expression_node(els, u);
    let start = spec_code_start(els, u);
    let end = if els[e].kind == Kind::BlockExpr {
        start
    } else {
        match spec_body_start(els, e) {
            Some(s) => s,
            None => els[u].range.end,
        }
    };
    ByteRange { start, end }
}

/// The direct operation of the first unit of a block's statement list, if any.
pub open spec fn block_first(els: Seq<Element>, block: int) -> Seq<ByteRange> {
    match first_pick(els, child_nodes(els, block), Pick::Kind(Kind::StmtList)) {
        Some(list) => match first_pick(els, child_nodes(els, list as int), Pick::Unit) {
            Some(u) => seq![spec_direct_operation(els, u as int)],
            None => Seq::empty(),
        },
        None => Seq::empty(),
    }
}

/// The first direct operations of the match arms among `arms[k..]`.
pub open spec fn arms_first(els: Seq<Element>, arms: Seq<usize>, k: int) -> Seq<ByteRange>
    decreases arms.len() - k,
{
    if k < 0 || k >= arms.len() {
        Seq::empty()
    } else {
        let arm = arms[k] as int;
        let here = match first_pick(els, child_nodes(els, arm), Pick::Expression) {
            Some(body) => if els[body as int].kind == Kind::BlockExpr {
                block_first(els, body as int)
            } else {
                seq![spec_direct_operation(els, body as int)]
            },
            None => Seq::empty(),
        };
        here + arms_first(els, arms, k + 1)
    }
}

/// The first direct operations of the bodies among `children[k..]` of a control expression.
pub open spec fn body_first_from(
    els: Seq<Element>,
    start: Option<usize>,
    children: Seq<usize>,
    k: int,
) -> Seq<ByteRange>
    decreases children.len() - k,
{
    if k < 0 || k >= children.len() {
        Seq::empty()
    } else {
        let c = children[k] as int;
        let rest = body_first_from(els, start, children, k + 1);
        if start matches Some(s) && els[c].range.start < s {
            rest
        } else if els[c].kind == Kind::BlockExpr {
            block_first(els, c) + rest
        } else if els[c].kind == Kind::MatchArmList {
            arms_first(els, pick_all(els, child_nodes(els, c), Pick::Kind(Kind::MatchArm)), 0)
                + rest
        } else {
            rest
        }
    }
}

/// The first direct operation of each written body of an expression.
pub open spec fn spec_body_first(els: Seq<Element>, e: int) -> Seq<ByteRange> {
    body_first_from(els, spec_body_start(els, e), child_nodes(els, e), 0)
}

/// The expression that a statement wraps, or the node itself.
pub fn expression_node(tree: &SyntaxTree, i: usize) -> (e: usize)
    requires
        tree.wf(),
        i < tree.size(),
    ensures
        e == spec_expression_node(tree.elements@, i as int),
        i <= e < tree.size(),
{
    if tree.elements[i].kind == Kind::ExprStmt {
        match tree.first_child(i, Pick::Expression) {
            Some(c) => c,
            None => i,
        }
    } else {
        i
    }
}

/// The spacing category of an item node.
pub fn item_kind(tree: &SyntaxTree, i: usize) -> (kind: ItemKind)
    requires
        tree.wf(),
        i < tree.size(),
    ensures
        kind == spec_item_kind(tree.elements@, i as int),
{
    match tree.elements[i].kind {
        Kind::Fn => if tree.first_child(i, Pick::Kind(Kind::BlockExpr)).is_some() {
            ItemKind::Function
        } else {
            ItemKind::Compact
        },
        Kind::Module => if tree.first_child(i, Pick::Kind(Kind::ItemList)).is_some() {
            ItemKind::Major
        } else {
            ItemKind::Module
        },
        Kind::Use | Kind::ExternCrate => ItemKind::Import,
        Kind::Const | Kind::Static => ItemKind::Constant,
        Kind::TypeAlias => ItemKind::Alias,
        Kind::MacroCall | Kind::MacroRules | Kind::MacroDef => ItemKind::Opaque,
        _ => ItemKind::Major,
    }
}

/// Whether some token child of element `i` is an assignment operator.
fn assignment_token(tree: &SyntaxTree, bytes: &[u8], i: usize) -> (found: bool)
    requires
        tree.wf(),
        i < tree.size(),
        bytes@ == tree.text@,
    ensures
        found == has_assignment_token(tree.elements@, tree.text@, i as int),
{
    let list = tree.children_with_tokens(i);
    let ghost els = tree.elements@;
    let mut k: usize = 0;
    while k < list.len()
        invariant
            tree.wf(),
            els == tree.elements@,
            bytes@ == tree.text@,
            i < tree.size(),
            list@ == spec_children(els, i as int),
            forall|j: int| 0 <= j < list@.len() ==> i < #[trigger] list@[j] < tree.size(),
            k <= list@.len(),
            forall|j: int|
                0 <= j < k ==> !(!els[list@[j] as int].node && assignment_operator(
                    element_text(tree.text@, els[#[trigger] list@[j] as int]),
                )),
        decreases list@.len() - k,
    {
        let c = list[k];
        if !tree.elements[c].node {
            let op = tree.text_is(bytes, c, "=") || tree.text_is(bytes, c, "+=") || tree.text_is(
                bytes,
                c,
                "-=",
            ) || tree.text_is(bytes, c, "*=") || tree.text_is(bytes, c, "/=") || tree.text_is(
                bytes,
                c,
                "%=",
            ) || tree.text_is(bytes, c, "&=") || tree.text_is(bytes, c, "|=") || tree.text_is(
                bytes,
                c,
                "^=",
            ) || tree.text_is(bytes, c, "<<=") || tree.text_is(bytes, c, ">>=");
            if op {
                return true;
            }
        }
        k = k + 1;
    }
    false
}

/// The spacing category of a direct unit.
pub fn unit_kind(tree: &SyntaxTree, bytes: &[u8], i: usize) -> (kind: UnitKind)
    requires
        tree.wf(),
        i < tree.size(),
        bytes@ == tree.text@,
    ensures
        kind == spec_unit_kind(tree.elements@, tree.text@, i as int),
{
    if tree.elements[i].item {
        return UnitKind::Item(item_kind(tree, i));
    }
    if tree.elements[i].kind == Kind::LetStmt {
        return UnitKind::Let;
    }
    let e = expression_node(tree, i);
    match tree.elements[e].kind {
        Kind::IfExpr | Kind::ForExpr | Kind::WhileExpr | Kind::LoopExpr | Kind::MatchExpr => {
            UnitKind::Control
        },
        Kind::BlockExpr => UnitKind::Block,
        Kind::ReturnExpr | Kind::BreakExpr | Kind::ContinueExpr => UnitKind::Exit,
        Kind::MacroExpr | Kind::MacroCall => UnitKind::Opaque,
        Kind::BinExpr => if assignment_token(tree, bytes, e) {
            UnitKind::Assignment
        } else {
            UnitKind::Expression
        },
        _ => UnitKind::Expression,
    }
}

/// Where a node's code starts.
pub fn code_start(tree: &SyntaxTree, i: usize) -> (start: usize)
    requires
        tree.wf(),
        i < tree.size(),
    ensures
        start == spec_code_start(tree.elements@, i as int),
    decreases tree.size() - i,
{
    if tree.elements[i].kind == Kind::ExprStmt {
        if let Some(c) = tree.first_child(i, Pick::Expression) {
            return code_start(tree, c);
        }
    }
    let list = tree.children_with_tokens(i);
    match tree.first_in(&list, Pick::Code, i) {
        Some(c) => tree.elements[c].range.start,
        None => tree.elements[i].range.start,
    }
}

/// A node's code span, excluding attached attributes and documentation.
pub fn code_range(tree: &SyntaxTree, i: usize) -> (range: ByteRange)
    requires
        tree.wf(),
        i < tree.size(),
    ensures
        range == spec_code_range(tree.elements@, i as int),
{
    ByteRange::new(code_start(tree, i), tree.elements[i].range.end)
}

/// Where the written body of a control expression starts; a block-valued
/// condition or scrutinee is not taken for the body.
pub fn control_body_start(tree: &SyntaxTree, e: usize) -> (start: Option<usize>)
    requires
        tree.wf(),
        e < tree.size(),
    ensures
        start == spec_body_start(tree.elements@, e as int),
{
    let children = tree.children(e);
    let exprs = tree.all_in(&children, Pick::Expression, e);
    match tree.elements[e].kind {
        Kind::IfExpr => if exprs.len() > 1 {
            Some(tree.elements[exprs[1]].range.start)
        } else {
            None
        },
        Kind::ForExpr | Kind::WhileExpr | Kind::LoopExpr => if exprs.len() > 0 {
            Some(tree.elements[exprs[exprs.len() - 1]].range.start)
        } else {
            None
        },
        Kind::MatchExpr => match tree.first_in(&children, Pick::Kind(Kind::MatchArmList), e) {
            Some(c) => Some(tree.elements[c].range.start),
            None => None,
        },
        _ => None,
    }
}

/// Whether a node is a direct unit of a statement list.
pub fn is_unit(tree: &SyntaxTree, i: usize) -> (unit: bool)
    requires
        tree.wf(),
        i < tree.size(),
    ensures
        unit == crate::syntax::tree::unit_element(tree.elements@[i as int]),
{
    tree.has(i, Pick::Unit)
}

/// Whether an expression is a short exiting guard: an `if` without `else` whose
/// single body unit is an exit.
pub fn guard(tree: &SyntaxTree, bytes: &[u8], e: usize) -> (is_guard: bool)
    requires
        tree.wf(),
        e < tree.size(),
        bytes@ == tree.text@,
    ensures
        is_guard == spec_guard(tree.elements@, tree.text@, e as int),
{
    if tree.elements[e].kind != Kind::IfExpr {
        return false;
    }
    let start = match control_body_start(tree, e) {
        Some(s) => s,
        None => return false,
    };
    let children = tree.children(e);
    let blocks = tree.all_in(&children, Pick::BlockFrom(start), e);
    if blocks.len() != 1 {
        return false;
    }
    if tree.has_token(bytes, e, "else") {
        return false;
    }
    let list = match tree.first_child(blocks[0], Pick::Kind(Kind::StmtList)) {
        Some(l) => l,
        None => return false,
    };
    let inner = tree.children(list);
    let units = tree.all_in(&inner, Pick::Unit, list);
    if units.len() != 1 {
        return false;
    }
    unit_kind(tree, bytes, units[0]) == UnitKind::Exit
}

/// The ranges of a node's deferred descendants, in order.
pub fn deferred_ranges(tree: &SyntaxTree, bytes: &[u8], i: usize) -> (ranges: Vec<ByteRange>)
    requires
        tree.wf(),
        i < tree.size(),
        bytes@ == tree.text@,
    ensures
        ranges@ == spec_deferred(tree.elements@, tree.text@, i as int),
{
    let ghost els = tree.elements@;
    let stop = tree.elements[i].end;
    let mut ranges: Vec<ByteRange> = Vec::new();
    let mut j = i + 1;
    while j < stop
        invariant
            tree.wf(),
            els == tree.elements@,
            bytes@ == tree.text@,
            i < els.len(),
            stop == els[i as int].end,
            stop <= els.len(),
            i < j <= stop,
            ranges@ + deferred_from(els, tree.text@, j as int, stop as int) == deferred_from(
                els,
                tree.text@,
                i + 1,
                stop as int,
            ),
        decreases stop - j,
    {
        let deferred = tree.elements[j].node && (tree.elements[j].kind == Kind::ClosureExpr
            || tree.elements[j].kind == Kind::Fn || (tree.elements[j].kind == Kind::BlockExpr
            && tree.has_token(bytes, j, "async")));
        proof {
            assert(deferred == deferred_element(els, tree.text@, j as int));
        }
        if deferred {
            proof {
                assert(ranges@.push(els[j as int].range) + deferred_from(
                    els,
                    tree.text@,
                    j + 1,
                    stop as int,
                ) =~= ranges@ + (seq![els[j as int].range] + deferred_from(
                    els,
                    tree.text@,
                    j + 1,
                    stop as int,
                )));
            }
            ranges.push(tree.elements[j].range);
        }
        j = j + 1;
    }
    proof {
        assert(deferred_from(els, tree.text@, j as int, stop as int) =~= Seq::<ByteRange>::empty());
        assert(ranges@ + Seq::<ByteRange>::empty() =~= ranges@);
    }
    ranges
}

/// The range of a unit's direct operation: its code up to its written body.
pub fn direct_operation_range(tree: &SyntaxTree, u: usize) -> (range: ByteRange)
    requires
        tree.wf(),
        u < tree.size(),
    ensures
        range == spec_direct_operation(tree.elements@, u as int),
{
    let e = expression_node(tree, u);
    let start = code_start(tree, u);
    let end = if tree.elements[e].kind == Kind::BlockExpr {
        start
    } else {
        match control_body_start(tree, e) {
            Some(s) => s,
            None => tree.elements[u].range.end,
        }
    };
    ByteRange::new(start, end)
}

/// The direct operation of the first unit of a block's statement list.
fn push_block_first(tree: &SyntaxTree, block: usize, result: &mut Vec<ByteRange>)
    requires
        tree.wf(),
        block < tree.size(),
    ensures
        final(result)@ == old(result)@ + block_first(tree.elements@, block as int),
{
    if let Some(list) = tree.first_child(block, Pick::Kind(Kind::StmtList)) {
        if let Some(u) = tree.first_child(list, Pick::Unit) {
            result.push(direct_operation_range(tree, u));
            return;
        }
    }
    proof {
        assert(old(result)@ + block_first(tree.elements@, block as int) =~= old(result)@);
    }
}

/// The first direct operations of the match arms of an arm list.
fn push_arms_first(tree: &SyntaxTree, arm_list: usize, result: &mut Vec<ByteRange>)
    requires
        tree.wf(),
        arm_list < tree.size(),
    ensures
        final(result)@ == old(result)@ + arms_first(
            tree.elements@,
            pick_all(tree.elements@, child_nodes(tree.elements@, arm_list as int), Pick::Kind(Kind::MatchArm)),
            0,
        ),
{
    let ghost els = tree.elements@;
    let children = tree.children(arm_list);
    let arms = tree.all_in(&children, Pick::Kind(Kind::MatchArm), arm_list);
    let ghost start = result@;
    let mut k: usize = 0;
    while k < arms.len()
        invariant
            tree.wf(),
            els == tree.elements@,
            k <= arms@.len(),
            forall|j: int| 0 <= j < arms@.len() ==> #[trigger] arms@[j] < tree.size(),
            result@ + arms_first(els, arms@, k as int) == start + arms_first(els, arms@, 0),
        decreases arms@.len() - k,
    {
        let arm = arms[k];
        let ghost before = result@;
        match tree.first_child(arm, Pick::Expression) {
            Some(body) => {
                if tree.elements[body].kind == Kind::BlockExpr {
                    push_block_first(tree, body, result);
                } else {
                    result.push(direct_operation_range(tree, body));
                }
            },
            None => {},
        }
        proof {
            let here = result@.subrange(before.len() as int, result@.len() as int);
            assert(result@ =~= before + here);
            assert(arms_first(els, arms@, k as int) == here + arms_first(els, arms@, k + 1));
            assert(before + arms_first(els, arms@, k as int) =~= result@ + arms_first(
                els,
                arms@,
                k + 1,
            ));
        }
        k = k + 1;
    }
    proof {
        assert(arms_first(els, arms@, k as int) =~= Seq::<ByteRange>::empty());
        assert(result@ + Seq::<ByteRange>::empty() =~= result@);
    }
}

/// The first direct operation of each written body of an expression; a nested
/// body contributes only its header, never its whole interior.
pub fn immediate_body_first(tree: &SyntaxTree, e: usize) -> (result: Vec<ByteRange>)
    requires
        tree.wf(),
        e < tree.size(),
    ensures
        result@ == spec_body_first(tree.elements@, e as int),
{
    let ghost els = tree.elements@;
    let start = control_body_start(tree, e);
    let children = tree.children(e);
    let mut result: Vec<ByteRange> = Vec::new();
    let mut k: usize = 0;
    while k < children.len()
        invariant
            tree.wf(),
            els == tree.elements@,
            e < tree.size(),
            start == spec_body_start(els, e as int),
            children@ == child_nodes(els, e as int),
            forall|j: int| 0 <= j < children@.len() ==> e < #[trigger] children@[j] < tree.size(),
            k <= children@.len(),
            result@ + body_first_from(els, start, children@, k as int) == body_first_from(
                els,
                start,
                children@,
                0,
            ),
        decreases children@.len() - k,
    {
        let c = children[k];
        let ghost before = result@;
        let skip = match start {
            Some(s) => tree.elements[c].range.start < s,
            None => false,
        };
        if !skip {
            if tree.elements[c].kind == Kind::BlockExpr {
                push_block_first(tree, c, &mut result);
            } else if tree.elements[c].kind == Kind::MatchArmList {
                push_arms_first(tree, c, &mut result);
            }
        }
        proof {
            let here = result@.subrange(before.len() as int, result@.len() as int);
            assert(result@ =~= before + here);
            assert(body_first_from(els, start, children@, k as int) == here + body_first_from(
                els,
                start,
                children@,
                k + 1,
            ));
            assert(before + body_first_from(els, start, children@, k as int) =~= result@
                + body_first_from(els, start, children@, k + 1));
        }
        k = k + 1;
    }
    proof {
        assert(body_first_from(els, start, children@, k as int) =~= Seq::<ByteRange>::empty());
        assert(result@ + Seq::<ByteRange>::empty() =~= result@);
    }
    result
}

} // verus!
