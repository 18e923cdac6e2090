//! A lossless Rust syntax tree held as plain values: every node and token of a
//! parse, in preorder, with its kind, byte range, parent and subtree extent.
use ra_ap_syntax::ast;
use ra_ap_syntax::{AstNode, Edition, SourceFile, SyntaxKind, WalkEvent};
use vstd::prelude::*;

use crate::model::ByteRange;
use crate::slices::char_range;
use vstd::utf8::encode_utf8;

verus! {

/// Greatest numeric code of a syntax kind in the parser's kind enumeration.
pub const LAST_KIND_CODE: u16 = 326;

/// One step of a preorder walk over a parsed syntax tree.
#[derive(Clone, Copy, Debug, PartialEq, Eq, Structural)]
pub enum SyntaxEvent {
    /// The walk enters a node or a token.
    Enter {
        /// Whether the element is a node rather than a token.
        node: bool,
        /// Numeric code of the element's syntax kind.
        code: u16,
        /// Inclusive byte offset of the element's text.
        start: usize,
        /// Exclusive byte offset of the element's text.
        end: usize,
    },
    /// The walk leaves the element it entered most recently and has not left yet.
    Leave,
}

/// The preorder walk of the tree that `SourceFile::parse` builds for a source
/// text and an edition index, or the parser's error report when it found errors.
pub uninterp spec fn parsed_events(source: Seq<char>, edition: u32) -> Result<Seq<SyntaxEvent>, Seq<char>>;

/// The `Debug` name of the syntax kind with the given code.
pub uninterp spec fn kind_name(code: u16) -> Seq<char>;

/// Whether `ast::Expr::can_cast` accepts the syntax kind with the given code.
pub uninterp spec fn expression_code(code: u16) -> bool;

/// Whether `ast::Item::can_cast` accepts the syntax kind with the given code.
pub uninterp spec fn item_code(code: u16) -> bool;

/// Whether `ast::Pat::can_cast` accepts the syntax kind with the given code.
pub uninterp spec fn pattern_code(code: u16) -> bool;

/// Whether every entered element of a walk has a valid kind code.
pub open spec fn codes_valid(events: Seq<SyntaxEvent>) -> bool {
    forall|i: int|
        0 <= i < events.len() ==> (#[trigger] events[i] matches SyntaxEvent::Enter { code, .. }
            ==> code <= LAST_KIND_CODE)
}

/// Calls `SourceFile::parse` with `Edition::from_u32(edition)`; when the parse
/// reports errors, returns their `Debug` rendering, otherwise the parse tree's
/// `preorder_with_tokens` walk, each element given by its kind code
/// (`u16::from`) and its text range. The contract names this result and states
/// that every code is at most the code of `SyntaxKind::__LAST`.
#[verifier::external_body]
pub(crate) fn parse_events(source: &str, edition: u32) -> (events: Result<Vec<SyntaxEvent>, String>)
    requires
        vstd::utf8::encode_utf8(source@).len() <= u32::MAX,
        edition < 4,
    ensures
        match events {
            Ok(walk) => parsed_events(source@, edition) == Ok::<Seq<SyntaxEvent>, Seq<char>>(walk@)
                && codes_valid(walk@),
            Err(report) => parsed_events(source@, edition) == Err::<Seq<SyntaxEvent>, Seq<char>>(
                report@,
            ),
        },
{
    let parse = SourceFile::parse(source, Edition::from_u32(edition));
    let errors = parse.errors();
    if !errors.is_empty() {
        return Err(format!("{errors:?}"));
    }
    Ok(parse.syntax_node().preorder_with_tokens().map(|step| match step {
        WalkEvent::Enter(e) => SyntaxEvent::Enter {
            node: e.as_node().is_some(),
            code: u16::from(e.kind()),
            start: usize::from(e.text_range().start()),
            end: usize::from(e.text_range().end()),
        },
        WalkEvent::Leave(_) => SyntaxEvent::Leave,
    }).collect())
}

/// Formats `SyntaxKind::from(code)` with its derived `Debug`, which prints the
/// variant's name; the contract names the result.
#[verifier::external_body]
fn syntax_kind_name(code: u16) -> (name: String)
    requires
        code <= LAST_KIND_CODE,
    ensures
        name@ == kind_name(code),
{
    format!("{:?}", SyntaxKind::from(code))
}

/// Calls `ast::Expr::can_cast` on `SyntaxKind::from(code)`; the contract names the result.
#[verifier::external_body]
fn is_expression_code(code: u16) -> (accepted: bool)
    requires
        code <= LAST_KIND_CODE,
    ensures
        accepted == expression_code(code),
{
    ast::Expr::can_cast(SyntaxKind::from(code))
}

/// Calls `ast::Item::can_cast` on `SyntaxKind::from(code)`; the contract names the result.
#[verifier::external_body]
fn is_item_code(code: u16) -> (accepted: bool)
    requires
        code <= LAST_KIND_CODE,
    ensures
        accepted == item_code(code),
{
    ast::Item::can_cast(SyntaxKind::from(code))
}

/// Calls `ast::Pat::can_cast` on `SyntaxKind::from(code)`; the contract names the result.
#[verifier::external_body]
fn is_pattern_code(code: u16) -> (accepted: bool)
    requires
        code <= LAST_KIND_CODE,
    ensures
        accepted == pattern_code(code),
{
    ast::Pat::can_cast(SyntaxKind::from(code))
}

/// The syntax kinds that the spacing rules tell apart.
#[derive(Clone, Copy, Debug, PartialEq, Eq, Structural)]
pub enum Kind {
    SourceFile,
    ItemList,
    AssocItemList,
    ExternItemList,
    StmtList,
    TokenTree,
    MacroRules,
    Attr,
    Whitespace,
    Comment,
    ExprStmt,
    LetStmt,
    LetElse,
    Fn,
    BlockExpr,
    Module,
    Use,
    Const,
    Static,
    TypeAlias,
    ExternCrate,
    MacroCall,
    MacroDef,
    MacroExpr,
    IfExpr,
    ForExpr,
    WhileExpr,
    LoopExpr,
    MatchExpr,
    ReturnExpr,
    BreakExpr,
    ContinueExpr,
    BinExpr,
    ClosureExpr,
    MatchArmList,
    MatchArm,
    LetExpr,
    MethodCallExpr,
    /// Any kind that the rules do not distinguish.
    Other,
}

/// The kind that a syntax kind's name denotes.
pub open spec fn kind_of_name(name: Seq<char>) -> Kind {
    if name == "SOURCE_FILE"@ {
        Kind::SourceFile
    } else if name == "ITEM_LIST"@ {
        Kind::ItemList
    } else if name == "ASSOC_ITEM_LIST"@ {
        Kind::AssocItemList
    } else if name == "EXTERN_ITEM_LIST"@ {
        Kind::ExternItemList
    } else if name == "STMT_LIST"@ {
        Kind::StmtList
    } else if name == "TOKEN_TREE"@ {
        Kind::TokenTree
    } else if name == "MACRO_RULES"@ {
        Kind::MacroRules
    } else if name == "ATTR"@ {
        Kind::Attr
    } else if name == "WHITESPACE"@ {
        Kind::Whitespace
    } else if name == "COMMENT"@ {
        Kind::Comment
    } else if name == "EXPR_STMT"@ {
        Kind::ExprStmt
    } else if name == "LET_STMT"@ {
        Kind::LetStmt
    } else if name == "LET_ELSE"@ {
        Kind::LetElse
    } else if name == "FN"@ {
        Kind::Fn
    } else if name == "BLOCK_EXPR"@ {
        Kind::BlockExpr
    } else if name == "MODULE"@ {
        Kind::Module
    } else if name == "USE"@ {
        Kind::Use
    } else if name == "CONST"@ {
        Kind::Const
    } else if name == "STATIC"@ {
        Kind::Static
    } else if name == "TYPE_ALIAS"@ {
        Kind::TypeAlias
    } else if name == "EXTERN_CRATE"@ {
        Kind::ExternCrate
    } else if name == "MACRO_CALL"@ {
        Kind::MacroCall
    } else if name == "MACRO_DEF"@ {
        Kind::MacroDef
    } else if name == "MACRO_EXPR"@ {
        Kind::MacroExpr
    } else if name == "IF_EXPR"@ {
        Kind::IfExpr
    } else if name == "FOR_EXPR"@ {
        Kind::ForExpr
    } else if name == "WHILE_EXPR"@ {
        Kind::WhileExpr
    } else if name == "LOOP_EXPR"@ {
        Kind::LoopExpr
    } else if name == "MATCH_EXPR"@ {
        Kind::MatchExpr
    } else if name == "RETURN_EXPR"@ {
        Kind::ReturnExpr
    } else if name == "BREAK_EXPR"@ {
        Kind::BreakExpr
    } else if name == "CONTINUE_EXPR"@ {
        Kind::ContinueExpr
    } else if name == "BIN_EXPR"@ {
        Kind::BinExpr
    } else if name == "CLOSURE_EXPR"@ {
        Kind::ClosureExpr
    } else if name == "MATCH_ARM_LIST"@ {
        Kind::MatchArmList
    } else if name == "MATCH_ARM"@ {
        Kind::MatchArm
    } else if name == "LET_EXPR"@ {
        Kind::LetExpr
    } else if name == "METHOD_CALL_EXPR"@ {
        Kind::MethodCallExpr
    } else {
        Kind::Other
    }
}

/// Whether two strings hold the same characters.
pub fn same_text(a: &str, b: &str) -> (same: bool)
    ensures
        same == (a@ == b@),
{
    let same = crate::slices::same_bytes(a.as_bytes(), b.as_bytes());
    proof {
        vstd::utf8::encode_utf8_decode_utf8(a@);
        vstd::utf8::encode_utf8_decode_utf8(b@);
    }
    same
}

/// Classifies a syntax kind by its name.
pub fn kind_of(name: &str) -> (kind: Kind)
    ensures
        kind == kind_of_name(name@),
{
    if same_text(name, "SOURCE_FILE") {
        Kind::SourceFile
    } else if same_text(name, "ITEM_LIST") {
        Kind::ItemList
    } else if same_text(name, "ASSOC_ITEM_LIST") {
        Kind::AssocItemList
    } else if same_text(name, "EXTERN_ITEM_LIST") {
        Kind::ExternItemList
    } else if same_text(name, "STMT_LIST") {
        Kind::StmtList
    } else if same_text(name, "TOKEN_TREE") {
        Kind::TokenTree
    } else if same_text(name, "MACRO_RULES") {
        Kind::MacroRules
    } else if same_text(name, "ATTR") {
        Kind::Attr
    } else if same_text(name, "WHITESPACE") {
        Kind::Whitespace
    } else if same_text(name, "COMMENT") {
        Kind::Comment
    } else if same_text(name, "EXPR_STMT") {
        Kind::ExprStmt
    } else if same_text(name, "LET_STMT") {
        Kind::LetStmt
    } else if same_text(name, "LET_ELSE") {
        Kind::LetElse
    } else if same_text(name, "FN") {
        Kind::Fn
    } else if same_text(name, "BLOCK_EXPR") {
        Kind::BlockExpr
    } else if same_text(name, "MODULE") {
        Kind::Module
    } else if same_text(name, "USE") {
        Kind::Use
    } else if same_text(name, "CONST") {
        Kind::Const
    } else if same_text(name, "STATIC") {
        Kind::Static
    } else if same_text(name, "TYPE_ALIAS") {
        Kind::TypeAlias
    } else if same_text(name, "EXTERN_CRATE") {
        Kind::ExternCrate
    } else if same_text(name, "MACRO_CALL") {
        Kind::MacroCall
    } else if same_text(name, "MACRO_DEF") {
        Kind::MacroDef
    } else if same_text(name, "MACRO_EXPR") {
        Kind::MacroExpr
    } else if same_text(name, "IF_EXPR") {
        Kind::IfExpr
    } else if same_text(name, "FOR_EXPR") {
        Kind::ForExpr
    } else if same_text(name, "WHILE_EXPR") {
        Kind::WhileExpr
    } else if same_text(name, "LOOP_EXPR") {
        Kind::LoopExpr
    } else if same_text(name, "MATCH_EXPR") {
        Kind::MatchExpr
    } else if same_text(name, "RETURN_EXPR") {
        Kind::ReturnExpr
    } else if same_text(name, "BREAK_EXPR") {
        Kind::BreakExpr
    } else if same_text(name, "CONTINUE_EXPR") {
        Kind::ContinueExpr
    } else if same_text(name, "BIN_EXPR") {
        Kind::BinExpr
    } else if same_text(name, "CLOSURE_EXPR") {
        Kind::ClosureExpr
    } else if same_text(name, "MATCH_ARM_LIST") {
        Kind::MatchArmList
    } else if same_text(name, "MATCH_ARM") {
        Kind::MatchArm
    } else if same_text(name, "LET_EXPR") {
        Kind::LetExpr
    } else if same_text(name, "METHOD_CALL_EXPR") {
        Kind::MethodCallExpr
    } else {
        Kind::Other
    }
}

/// One node or token of a syntax tree, at its preorder position.
#[derive(Debug)]
pub struct Element {
    /// Whether this element is a node rather than a token.
    pub node: bool,
    /// Numeric code of the syntax kind.
    pub code: u16,
    /// Name of the syntax kind.
    pub name: String,
    /// Classification of the syntax kind.
    pub kind: Kind,
    /// Whether the kind is an expression kind.
    pub expression: bool,
    /// Whether the kind is an item kind.
    pub item: bool,
    /// Whether the kind is a pattern kind.
    pub pattern: bool,
    /// Byte range of the element's text.
    pub range: ByteRange,
    /// Preorder index of the enclosing node; the root is its own parent.
    pub parent: usize,
    /// One past the preorder index of the element's last descendant.
    pub end: usize,
}

/// Whether an element's classification agrees with its kind code.
pub open spec fn element_classified(e: Element) -> bool {
    &&& e.code <= LAST_KIND_CODE
    &&& e.name@ == kind_name(e.code)
    &&& e.kind == kind_of_name(e.name@)
    &&& e.expression == expression_code(e.code)
    &&& e.item == item_code(e.code)
    &&& e.pattern == pattern_code(e.code)
}

/// Whether a preorder sequence of elements forms a tree over a text whose
/// UTF-8 bytes are `text`, each element's range running between character boundaries.
pub open spec fn tree_wf(els: Seq<Element>, text: Seq<u8>) -> bool {
    &&& els.len() > 0
    &&& els[0].parent == 0
    &&& els[0].end == els.len()
    &&& forall|i: int| 0 <= i < els.len() ==> i < #[trigger] els[i].end <= els.len()
    &&& forall|i: int| 0 < i < els.len() ==> #[trigger] els[i].parent < i
    &&& forall|i: int|
        0 <= i < els.len() ==> char_range(
            text,
            #[trigger] els[i].range.start as int,
            els[i].range.end as int,
        )
    &&& forall|i: int| 0 <= i < els.len() ==> element_classified(#[trigger] els[i])
}

/// The elements that follow one another from `c` by skipping whole subtrees,
/// up to index `stop`: the children of a node whose first child is at `c`.
pub open spec fn child_chain(els: Seq<Element>, stop: int, c: int) -> Seq<usize>
    decreases stop - c,
{
    if 0 <= c < stop && c < els.len() && c < els[c].end {
        if els[c].end < stop {
            seq![c as usize] + child_chain(els, stop, els[c].end as int)
        } else {
            seq![c as usize]
        }
    } else {
        Seq::empty()
    }
}

/// The children (nodes and tokens) of element `i`.
pub open spec fn spec_children(els: Seq<Element>, i: int) -> Seq<usize> {
    child_chain(els, els[i].end as int, i + 1)
}

/// Each index of a child chain lies between its start and its stop.
pub proof fn lemma_child_chain_bounds(els: Seq<Element>, stop: int, c: int)
    requires
        0 <= c,
    ensures
        forall|k: int|
            0 <= k < child_chain(els, stop, c).len() ==> c <= #[trigger] child_chain(
                els,
                stop,
                c,
            )[k] < stop && child_chain(els, stop, c)[k] < els.len(),
    decreases stop - c,
{
    if 0 <= c < stop && c < els.len() && c < els[c].end && els[c].end < stop {
        let next = els[c].end as int;
        lemma_child_chain_bounds(els, stop, next);
        let chain = child_chain(els, stop, c);
        assert forall|k: int| 0 <= k < chain.len() implies c <= #[trigger] chain[k] < stop
            && chain[k] < els.len() by {
            if k > 0 {
                assert(chain[k] == child_chain(els, stop, next)[k - 1]);
            }
        }
    }
}

/// The entries of a list of element indices that are nodes, in order.
pub open spec fn nodes_among(els: Seq<Element>, list: Seq<usize>) -> Seq<usize>
    decreases list.len(),
{
    if list.len() == 0 {
        Seq::empty()
    } else if els[list.last() as int].node {
        nodes_among(els, list.drop_last()).push(list.last())
    } else {
        nodes_among(els, list.drop_last())
    }
}

/// The child nodes of element `i`.
pub open spec fn child_nodes(els: Seq<Element>, i: int) -> Seq<usize> {
    nodes_among(els, spec_children(els, i))
}

/// A property of an element that the rules search children for.
#[derive(Clone, Copy, Debug, PartialEq, Eq, Structural)]
pub enum Pick {
    /// An element of the given kind.
    Kind(Kind),
    /// An expression.
    Expression,
    /// A pattern.
    Pattern,
    /// A direct unit of a statement list: a binding, a statement, an item or an expression.
    Unit,
    /// A block expression starting at or after the given offset.
    BlockFrom(usize),
    /// An element that starts an item's code: neither an attribute node nor a
    /// whitespace or comment token.
    Code,
}

/// Whether a node is a direct unit of a statement list.
pub open spec fn unit_element(e: Element) -> bool {
    e.kind == Kind::LetStmt || e.kind == Kind::ExprStmt || e.item || e.expression
}

/// Whether an element has the property.
pub open spec fn picks(e: Element, p: Pick) -> bool {
    match p {
        Pick::Kind(k) => e.kind == k,
        Pick::Expression => e.expression,
        Pick::Pattern => e.pattern,
        Pick::Unit => unit_element(e),
        Pick::BlockFrom(start) => e.kind == Kind::BlockExpr && start <= e.range.start,
        Pick::Code => !(e.node && e.kind == Kind::Attr) && !(!e.node && (e.kind == Kind::Whitespace
            || e.kind == Kind::Comment)),
    }
}

/// The first entry of `list` from position `k` on whose element has the property.
pub open spec fn first_pick_from(els: Seq<Element>, list: Seq<usize>, p: Pick, k: int) -> Option<
    usize,
>
    decreases list.len() - k,
{
    if k < 0 || k >= list.len() {
        None
    } else if picks(els[list[k] as int], p) {
        Some(list[k])
    } else {
        first_pick_from(els, list, p, k + 1)
    }
}

/// The first entry of `list` whose element has the property.
pub open spec fn first_pick(els: Seq<Element>, list: Seq<usize>, p: Pick) -> Option<usize> {
    first_pick_from(els, list, p, 0)
}

/// The entries of `list` whose elements have the property, in order.
pub open spec fn pick_all(els: Seq<Element>, list: Seq<usize>, p: Pick) -> Seq<usize>
    decreases list.len(),
{
    if list.len() == 0 {
        Seq::empty()
    } else if picks(els[list.last() as int], p) {
        pick_all(els, list.drop_last(), p).push(list.last())
    } else {
        pick_all(els, list.drop_last(), p)
    }
}

/// The bytes of an element's text.
pub open spec fn element_text(text: Seq<u8>, e: Element) -> Seq<u8> {
    text.subrange(e.range.start as int, e.range.end as int)
}

/// The first of `list` that is a token with the text `word`.
pub open spec fn first_token_among(els: Seq<Element>, text: Seq<u8>, list: Seq<usize>, word: Seq<u8>) -> Option<
    usize,
>
    decreases list.len(),
{
    if list.len() == 0 {
        None
    } else if !els[list[0] as int].node && element_text(text, els[list[0] as int]) == word {
        Some(list[0])
    } else {
        first_token_among(els, text, list.drop_first(), word)
    }
}

/// Whether some token child of element `i` has the given text.
pub open spec fn has_token_text(els: Seq<Element>, text: Seq<u8>, i: int, word: Seq<u8>) -> bool {
    exists|k: int|
        0 <= k < spec_children(els, i).len() && !els[spec_children(els, i)[k] as int].node
            && element_text(text, els[#[trigger] spec_children(els, i)[k] as int]) == word
}

/// An element of a preorder walk while its tree is being assembled.
#[derive(Clone, Copy)]
pub struct Slot {
    /// Whether the element is a node rather than a token.
    pub node: bool,
    /// Numeric code of its syntax kind.
    pub code: u16,
    /// Inclusive byte offset of its text.
    pub start: usize,
    /// Exclusive byte offset of its text.
    pub end: usize,
    /// Index of the element it was entered within.
    pub parent: usize,
    /// One past the index of its last descendant, once it has been left.
    pub last: usize,
}

/// Assembles the slots of a preorder walk from event `i` on, given the slots so
/// far and the stack of entered slots not yet left. Entering records a slot with
/// the innermost open slot as its parent; leaving closes the innermost one. The
/// walk fails where a range is no character range of `text`, a second root is
/// entered, a leave has nothing to close, or it ends with slots open, with no
/// slot, or with a root that does not span every slot.
pub open spec fn assemble(events: Seq<SyntaxEvent>, text: Seq<u8>, i: int, slots: Seq<Slot>, open: Seq<usize>) -> Option<
    Seq<Slot>,
>
    decreases events.len() - i,
{
    if i < 0 || i >= events.len() {
        if open.len() != 0 || slots.len() == 0 || slots[0].last != slots.len() {
            None
        } else {
            Some(slots)
        }
    } else {
        match events[i] {
            SyntaxEvent::Enter { node, code, start, end } => {
                if !char_range(text, start as int, end as int) || (open.len() == 0 && slots.len() > 0) {
                    None
                } else {
                    let parent: usize = if open.len() == 0 {
                        0
                    } else {
                        open.last()
                    };
                    assemble(
                        events,
                        text,
                        i + 1,
                        slots.push(Slot { node, code, start, end, parent, last: (slots.len() + 1) as usize }),
                        open.push(slots.len() as usize),
                    )
                }
            },
            SyntaxEvent::Leave => {
                if open.len() == 0 {
                    None
                } else {
                    let index = open.last() as int;
                    let slot = slots[index];
                    assemble(
                        events,
                        text,
                        i + 1,
                        slots.update(
                            index,
                            Slot {
                                node: slot.node,
                                code: slot.code,
                                start: slot.start,
                                end: slot.end,
                                parent: slot.parent,
                                last: slots.len() as usize,
                            },
                        ),
                        open.drop_last(),
                    )
                }
            },
        }
    }
}

/// Whether every slot spans itself and no slot past the last.
pub open spec fn slots_nested(slots: Seq<Slot>) -> bool {
    forall|k: int| 0 <= k < slots.len() ==> k < (#[trigger] slots[k]).last <= slots.len()
}

/// The slots of a walk over `text` when it describes a tree: it assembles, and
/// every slot spans itself and no slot past the last.
pub open spec fn walk_slots(events: Seq<SyntaxEvent>, text: Seq<u8>) -> Option<Seq<Slot>> {
    match assemble(events, text, 0, Seq::empty(), Seq::empty()) {
        Some(slots) => if slots_nested(slots) {
            Some(slots)
        } else {
            None
        },
        None => None,
    }
}

/// Whether the elements are those that the slots describe, one for one.
pub open spec fn elements_of_slots(els: Seq<Element>, slots: Seq<Slot>) -> bool {
    els.len() == slots.len() && forall|j: int| 0 <= j < slots.len() ==> element_of_slot(#[trigger] els[j], slots[j])
}

/// Whether an element is the one a slot describes, classified by its code.
pub open spec fn element_of_slot(e: Element, slot: Slot) -> bool {
    &&& element_classified(e)
    &&& e.node == slot.node
    &&& e.code == slot.code
    &&& e.range == ByteRange { start: slot.start, end: slot.end }
    &&& e.parent == slot.parent
    &&& e.end == slot.last
}

/// Whether an assembled slot at index `k` has a valid code, range and parent.
spec fn slot_valid(slot: Slot, k: int, text: Seq<u8>) -> bool {
    &&& slot.code <= LAST_KIND_CODE
    &&& char_range(text, slot.start as int, slot.end as int)
    &&& (k > 0 ==> slot.parent < k)
}

/// A parsed source file as a plain tree.
pub struct SyntaxTree {
    /// Nodes and tokens in preorder; the root is at index 0.
    pub elements: Vec<Element>,
    /// The UTF-8 bytes of the parsed text.
    pub text: Ghost<Seq<u8>>,
}

impl SyntaxTree {
    /// Whether the elements form a tree over the parsed text.
    pub open spec fn wf(&self) -> bool {
        tree_wf(self.elements@, self.text@)
    }

    /// Number of elements.
    pub open spec fn size(&self) -> int {
        self.elements@.len() as int
    }

    /// Builds the tree that a preorder walk describes over `source`; `None` when
    /// the walk is not a well-formed tree over that text.
    pub fn from_events(events: &Vec<SyntaxEvent>, source: &str) -> (tree: Option<SyntaxTree>)
        requires
            codes_valid(events@),
        ensures
            tree is Some <==> walk_slots(events@, encode_utf8(source@)) is Some,
            tree matches Some(t) ==> {
                &&& t.wf()
                &&& t.text@ == encode_utf8(source@)
                &&& walk_slots(events@, encode_utf8(source@)) matches Some(slots) && elements_of_slots(
                    t.elements@,
                    slots,
                )
            },
    {
        let ghost text = encode_utf8(source@);
        let text_len = source.as_bytes().len();
        let mut slots: Vec<Slot> = Vec::new();
        let mut open: Vec<usize> = Vec::new();
        let mut i: usize = 0;
        let ghost walk = assemble(events@, text, 0, Seq::empty(), Seq::empty());
        proof {
            assert(slots@ =~= Seq::<Slot>::empty());
            assert(open@ =~= Seq::<usize>::empty());
        }
        while i < events.len()
            invariant
                codes_valid(events@),
                text == encode_utf8(source@),
                assemble(events@, text, i as int, slots@, open@) == walk,
                walk == assemble(events@, text, 0, Seq::empty(), Seq::empty()),
                text_len == text.len(),
                i <= events@.len(),
                slots@.len() <= i,
                forall|k: int| 0 <= k < open@.len() ==> #[trigger] open@[k] < slots@.len(),
                forall|k: int| 0 <= k < slots@.len() ==> slot_valid(#[trigger] slots@[k], k, text),
                slots@.len() > 0 ==> slots@[0].parent == 0,
            decreases events@.len() - i,
        {
            match events[i] {
                SyntaxEvent::Enter { node, code, start, end } => {
                    assert(events@[i as int] == SyntaxEvent::Enter { node, code, start, end });
                    if !(start <= end && end <= text_len && source.is_char_boundary(start)
                        && source.is_char_boundary(end)) {
                        assert(!char_range(text, start as int, end as int));
                        assert(assemble(events@, text, i as int, slots@, open@) is None);
                        return None;
                    }
                    let parent = if open.len() == 0 {
                        if slots.len() > 0 {
                            assert(assemble(events@, text, i as int, slots@, open@) is None);
                            return None;
                        }
                        0
                    } else {
                        open[open.len() - 1]
                    };
                    let index = slots.len();
                    let ghost before = slots@;
                    slots.push(Slot { node, code, start, end, parent, last: index + 1 });
                    open.push(index);
                    proof {
                        assert(slots@ == before.push(
                            Slot { node, code, start, end, parent, last: (before.len() + 1) as usize },
                        ));
                    }
                },
                SyntaxEvent::Leave => {
                    assert(events@[i as int] == SyntaxEvent::Leave);
                    if open.len() == 0 {
                        assert(assemble(events@, text, i as int, slots@, open@) is None);
                        return None;
                    }
                    let ghost open_before = open@;
                    let index = open.pop().unwrap();
                    proof {
                        assert(open@ =~= open_before.drop_last());
                        assert(index == open_before.last());
                    }
                    let mut slot = slots[index];
                    slot.last = slots.len();
                    slots.set(index, slot);
                },
            }
            i = i + 1;
        }
        if open.len() != 0 || slots.len() == 0 || slots[0].last != slots.len() {
            assert(assemble(events@, text, i as int, slots@, open@) is None);
            return None;
        }
        assert(walk == Some(slots@));
        let mut elements: Vec<Element> = Vec::new();
        let mut k: usize = 0;
        while k < slots.len()
            invariant
                walk == Some(slots@),
                walk == assemble(events@, text, 0, Seq::empty(), Seq::empty()),
                text == encode_utf8(source@),
                forall|j: int| 0 <= j < k ==> j < (#[trigger] slots@[j]).last <= slots@.len(),
                forall|j: int| 0 <= j < k ==> element_of_slot(#[trigger] elements@[j], slots@[j]),
                k <= slots@.len(),
                slots@.len() > 0,
                slots@[0].parent == 0,
                slots@[0].last == slots@.len(),
                forall|j: int| 0 <= j < slots@.len() ==> slot_valid(#[trigger] slots@[j], j, text),
                elements@.len() == k,
                forall|j: int| 0 <= j < k ==> #[trigger] elements@[j].end <= slots@.len(),
                forall|j: int|
                    0 <= j < k ==> element_classified(#[trigger] elements@[j]) && j < elements@[j].end
                        && (j > 0 ==> elements@[j].parent < j) && char_range(
                        text,
                        elements@[j].range.start as int,
                        elements@[j].range.end as int,
                    ),
                k > 0 ==> elements@[0].parent == 0 && elements@[0].end == slots@.len(),
            decreases slots@.len() - k,
        {
            let slot = slots[k];
            if !(k < slot.last && slot.last <= slots.len()) {
                assert(!slots_nested(slots@)) by {
                    assert(!(k < slots@[k as int].last <= slots@.len()));
                }
                return None;
            }
            let name = syntax_kind_name(slot.code);
            let kind = kind_of(name.as_str());
            elements.push(
                Element {
                    node: slot.node,
                    code: slot.code,
                    name,
                    kind,
                    expression: is_expression_code(slot.code),
                    item: is_item_code(slot.code),
                    pattern: is_pattern_code(slot.code),
                    range: ByteRange::new(slot.start, slot.end),
                    parent: slot.parent,
                    end: slot.last,
                },
            );
            k = k + 1;
        }
        Some(SyntaxTree { elements, text: Ghost(text) })
    }

    /// The children (nodes and tokens) of element `i`, in order.
    pub fn children_with_tokens(&self, i: usize) -> (list: Vec<usize>)
        requires
            self.wf(),
            i < self.size(),
        ensures
            list@ == spec_children(self.elements@, i as int),
            forall|k: int| 0 <= k < list@.len() ==> i < #[trigger] list@[k] < self.size(),
    {
        let ghost els = self.elements@;
        let stop = self.elements[i].end;
        let mut list: Vec<usize> = Vec::new();
        let mut c = i + 1;
        proof {
            lemma_child_chain_bounds(els, stop as int, i + 1);
        }
        while c < stop
            invariant
                self.wf(),
                els == self.elements@,
                i < els.len(),
                stop == els[i as int].end,
                i < c <= els.len(),
                list@ + child_chain(els, stop as int, c as int) == child_chain(
                    els,
                    stop as int,
                    i + 1,
                ),
            decreases els.len() - c,
        {
            let next = self.elements[c].end;
            proof {
                if next < stop {
                    assert(child_chain(els, stop as int, c as int) == seq![c] + child_chain(
                        els,
                        stop as int,
                        next as int,
                    ));
                } else {
                    assert(child_chain(els, stop as int, next as int) =~= Seq::<usize>::empty());
                    assert(child_chain(els, stop as int, c as int) =~= seq![c] + child_chain(
                        els,
                        stop as int,
                        next as int,
                    ));
                }
                assert(list@.push(c) + child_chain(els, stop as int, next as int) =~= list@ + (seq![
                    c,
                ] + child_chain(els, stop as int, next as int)));
            }
            list.push(c);
            c = next;
        }
        proof {
            assert(child_chain(els, stop as int, c as int) =~= Seq::<usize>::empty());
            assert(list@ =~= list@ + child_chain(els, stop as int, c as int));
            lemma_child_chain_bounds(els, stop as int, i + 1);
        }
        list
    }

    /// The child nodes of element `i`, in order.
    pub fn children(&self, i: usize) -> (list: Vec<usize>)
        requires
            self.wf(),
            i < self.size(),
        ensures
            list@ == nodes_among(self.elements@, spec_children(self.elements@, i as int)),
            forall|k: int| 0 <= k < list@.len() ==> i < #[trigger] list@[k] < self.size(),
    {
        let all = self.children_with_tokens(i);
        let ghost els = self.elements@;
        let mut list: Vec<usize> = Vec::new();
        let mut k: usize = 0;
        while k < all.len()
            invariant
                self.wf(),
                els == self.elements@,
                i < els.len(),
                k <= all@.len(),
                forall|j: int| 0 <= j < all@.len() ==> i < #[trigger] all@[j] < els.len(),
                list@ == nodes_among(els, all@.subrange(0, k as int)),
                forall|j: int| 0 <= j < list@.len() ==> i < #[trigger] list@[j] < els.len(),
            decreases all@.len() - k,
        {
            let c = all[k];
            proof {
                assert(all@.subrange(0, k + 1).drop_last() =~= all@.subrange(0, k as int));
                assert(all@.subrange(0, k + 1).last() == c);
            }
            if self.elements[c].node {
                list.push(c);
            }
            k = k + 1;
        }
        proof {
            assert(all@.subrange(0, all@.len() as int) =~= all@);
        }
        list
    }

    /// The byte range of element `i`.
    pub fn range(&self, i: usize) -> (range: ByteRange)
        requires
            self.wf(),
            i < self.size(),
        ensures
            range == self.elements@[i as int].range,
    {
        self.elements[i].range
    }

    /// The classified kind of element `i`.
    pub fn kind(&self, i: usize) -> (kind: Kind)
        requires
            self.wf(),
            i < self.size(),
        ensures
            kind == self.elements@[i as int].kind,
    {
        self.elements[i].kind
    }
    /// The first child node of element `i` with the property.
    pub fn first_child(&self, i: usize, p: Pick) -> (found: Option<usize>)
        requires
            self.wf(),
            i < self.size(),
        ensures
            found == first_pick(self.elements@, child_nodes(self.elements@, i as int), p),
            found matches Some(c) ==> i < c < self.size(),
    {
        let list = self.children(i);
        self.first_in(&list, p, i)
    }

    /// The first entry of a list of child indices with the property.
    pub fn first_in(&self, list: &Vec<usize>, p: Pick, i: usize) -> (found: Option<usize>)
        requires
            self.wf(),
            forall|k: int| 0 <= k < list@.len() ==> i < #[trigger] list@[k] < self.size(),
        ensures
            found == first_pick(self.elements@, list@, p),
            found matches Some(c) ==> i < c < self.size(),
    {
        let mut k: usize = 0;
        while k < list.len()
            invariant
                self.wf(),
                k <= list@.len(),
                forall|j: int| 0 <= j < list@.len() ==> i < #[trigger] list@[j] < self.size(),
                first_pick_from(self.elements@, list@, p, 0) == first_pick_from(
                    self.elements@,
                    list@,
                    p,
                    k as int,
                ),
            decreases list@.len() - k,
        {
            let c = list[k];
            if self.has(c, p) {
                return Some(c);
            }
            k = k + 1;
        }
        None
    }

    /// All entries of a list of child indices with the property, in order.
    pub fn all_in(&self, list: &Vec<usize>, p: Pick, i: usize) -> (found: Vec<usize>)
        requires
            self.wf(),
            forall|k: int| 0 <= k < list@.len() ==> i < #[trigger] list@[k] < self.size(),
        ensures
            found@ == pick_all(self.elements@, list@, p),
            forall|k: int| 0 <= k < found@.len() ==> i < #[trigger] found@[k] < self.size(),
    {
        let ghost els = self.elements@;
        let mut found: Vec<usize> = Vec::new();
        let mut k: usize = 0;
        while k < list.len()
            invariant
                self.wf(),
                els == self.elements@,
                k <= list@.len(),
                forall|j: int| 0 <= j < list@.len() ==> i < #[trigger] list@[j] < self.size(),
                found@ == pick_all(els, list@.subrange(0, k as int), p),
                forall|j: int| 0 <= j < found@.len() ==> i < #[trigger] found@[j] < self.size(),
            decreases list@.len() - k,
        {
            let c = list[k];
            proof {
                assert(list@.subrange(0, k + 1).drop_last() =~= list@.subrange(0, k as int));
                assert(list@.subrange(0, k + 1).last() == c);
            }
            if self.has(c, p) {
                found.push(c);
            }
            k = k + 1;
        }
        proof {
            assert(list@.subrange(0, list@.len() as int) =~= list@);
        }
        found
    }

    /// Whether element `c` has the property.
    pub fn has(&self, c: usize, p: Pick) -> (b: bool)
        requires
            self.wf(),
            c < self.size(),
        ensures
            b == picks(self.elements@[c as int], p),
    {
        let e = &self.elements[c];
        match p {
            Pick::Kind(k) => e.kind == k,
            Pick::Expression => e.expression,
            Pick::Pattern => e.pattern,
            Pick::Unit => e.kind == Kind::LetStmt || e.kind == Kind::ExprStmt || e.item
                || e.expression,
            Pick::BlockFrom(start) => e.kind == Kind::BlockExpr && start <= e.range.start,
            Pick::Code => !(e.node && e.kind == Kind::Attr) && !(!e.node && (e.kind
                == Kind::Whitespace || e.kind == Kind::Comment)),
        }
    }

    /// Whether the text of element `c` is `word`.
    pub fn text_is(&self, bytes: &[u8], c: usize, word: &str) -> (b: bool)
        requires
            self.wf(),
            c < self.size(),
            bytes@ == self.text@,
        ensures
            b == (element_text(self.text@, self.elements@[c as int]) == encode_utf8(word@)),
    {
        let range = self.elements[c].range;
        let w = word.as_bytes();
        if range.end - range.start != w.len() {
            proof {
                assert(element_text(self.text@, self.elements@[c as int]).len() != w@.len());
            }
            return false;
        }
        let mut k: usize = 0;
        while k < w.len()
            invariant
                self.wf(),
                bytes@ == self.text@,
                c < self.size(),
                range == self.elements@[c as int].range,
                range.end - range.start == w@.len(),
                w@ == encode_utf8(word@),
                k <= w@.len(),
                forall|j: int| 0 <= j < k ==> bytes@[range.start + j] == #[trigger] w@[j],
            decreases w@.len() - k,
        {
            if bytes[range.start + k] != w[k] {
                return false;
            }
            k = k + 1;
        }
        proof {
            assert(element_text(self.text@, self.elements@[c as int]) =~= w@);
        }
        true
    }

    /// Whether some token child of element `i` has the text `word`.
    pub fn has_token(&self, bytes: &[u8], i: usize, word: &str) -> (b: bool)
        requires
            self.wf(),
            i < self.size(),
            bytes@ == self.text@,
        ensures
            b == has_token_text(self.elements@, self.text@, i as int, encode_utf8(word@)),
    {
        let list = self.children_with_tokens(i);
        let ghost els = self.elements@;
        let mut k: usize = 0;
        while k < list.len()
            invariant
                self.wf(),
                els == self.elements@,
                bytes@ == self.text@,
                i < self.size(),
                list@ == spec_children(els, i as int),
                forall|j: int| 0 <= j < list@.len() ==> i < #[trigger] list@[j] < self.size(),
                k <= list@.len(),
                forall|j: int|
                    0 <= j < k ==> !(!els[list@[j] as int].node && element_text(
                        self.text@,
                        els[#[trigger] list@[j] as int],
                    ) == encode_utf8(word@)),
            decreases list@.len() - k,
        {
            let c = list[k];
            if !self.elements[c].node && self.text_is(bytes, c, word) {
                return true;
            }
            k = k + 1;
        }
        false
    }

    /// The token child of element `i` with the text `word` that comes first.
    pub fn first_token(&self, bytes: &[u8], i: usize, word: &str) -> (found: Option<usize>)
        requires
            self.wf(),
            i < self.size(),
            bytes@ == self.text@,
        ensures
            found == first_token_among(
                self.elements@,
                self.text@,
                spec_children(self.elements@, i as int),
                encode_utf8(word@),
            ),
            found matches Some(c) ==> i < c < self.size() && !self.elements@[c as int].node
                && element_text(self.text@, self.elements@[c as int]) == encode_utf8(word@)
                && spec_children(self.elements@, i as int).contains(c),
            found is None ==> !has_token_text(self.elements@, self.text@, i as int, encode_utf8(word@)),
    {
        let list = self.children_with_tokens(i);
        let ghost els = self.elements@;
        proof {
            assert(list@.skip(0) =~= list@);
        }
        let mut k: usize = 0;
        while k < list.len()
            invariant
                self.wf(),
                els == self.elements@,
                bytes@ == self.text@,
                i < self.size(),
                list@ == spec_children(els, i as int),
                forall|j: int| 0 <= j < list@.len() ==> i < #[trigger] list@[j] < self.size(),
                k <= list@.len(),
                forall|j: int|
                    0 <= j < k ==> !(!els[list@[j] as int].node && element_text(
                        self.text@,
                        els[#[trigger] list@[j] as int],
                    ) == encode_utf8(word@)),
                first_token_among(els, self.text@, list@, encode_utf8(word@)) == first_token_among(
                    els,
                    self.text@,
                    list@.skip(k as int),
                    encode_utf8(word@),
                ),
            decreases list@.len() - k,
        {
            let c = list[k];
            proof {
                assert(list@.skip(k as int).drop_first() =~= list@.skip(k + 1));
                assert(list@.skip(k as int)[0] == c);
            }
            if !self.elements[c].node && self.text_is(bytes, c, word) {
                proof {
                    assert(list@[k as int] == c);
                }
                return Some(c);
            }
            k = k + 1;
        }
        proof {
            assert(list@.skip(k as int) =~= Seq::<usize>::empty());
        }
        None
    }
}

} // verus!
