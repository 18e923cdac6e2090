//! Lossless syntax, comment ownership, and the source-to-compiler-facts join.
//!
//! Units are never related by identifier spelling: without compiler facts only
//! structural checks apply.
use vstd::prelude::*;
use vstd::string::StringExecFns;
use vstd::utf8::encode_utf8;

use crate::model::{ByteRange, SourceModel, UnitList};

pub mod comments;
pub mod lower;
pub mod protection;
pub mod semantics;
pub mod tree;
pub mod units;

pub use semantics::{Anchor, Event, EventKind, SemanticIndex};

use lower::{executable_units, gaps_between, inactive, lower, lowered};
use tree::{element_text, elements_of_slots, kind_name, parsed_events, walk_slots, Element, Kind, SyntaxTree};

verus! {

/// The parser's index of a Rust edition named by its year.
pub open spec fn edition_index(edition: Seq<char>) -> Option<u32> {
    if edition == "2015"@ {
        Some(0)
    } else if edition == "2018"@ {
        Some(1)
    } else if edition == "2021"@ {
        Some(2)
    } else if edition == "2024"@ {
        Some(3)
    } else {
        None
    }
}

/// The parser's index of an edition year.
fn edition_of(edition: &str) -> (index: Option<u32>)
    ensures
        index == edition_index(edition@),
{
    if tree::same_text(edition, "2015") {
        Some(0)
    } else if tree::same_text(edition, "2018") {
        Some(1)
    } else if tree::same_text(edition, "2021") {
        Some(2)
    } else if tree::same_text(edition, "2024") {
        Some(3)
    } else {
        None
    }
}

/// Why a parse fails: an unsupported edition, the parser's error report, or a
/// walk that does not describe a tree over the text.
pub open spec fn parse_failure(source: Seq<char>, edition: Seq<char>, message: Seq<char>) -> bool {
    match edition_index(edition) {
        None => message == "unsupported Rust edition: "@ + edition,
        Some(index) => match parsed_events(source, index) {
            Err(report) => message == "source parser rejected this file: "@ + report,
            Ok(events) => message == "source parser produced a malformed syntax tree"@ && walk_slots(
                events,
                encode_utf8(source),
            ) is None,
        },
    }
}

/// Whether `tree` is the tree that parsing `source` for `edition` describes: the
/// edition is supported, the parser accepts the text, and the tree's elements are
/// those of the parser's walk.
pub open spec fn parsed_tree(source: Seq<char>, edition: Seq<char>, tree: SyntaxTree) -> bool {
    &&& tree.wf()
    &&& tree.text@ == encode_utf8(source)
    &&& edition_index(edition) is Some
    &&& parsed_events(source, edition_index(edition)->0) matches Ok(events) && walk_slots(
        events,
        encode_utf8(source),
    ) matches Some(slots) && elements_of_slots(tree.elements@, slots)
}

/// The tree of a source text, or the message that explains why there is none.
fn parse_tree(source: &str, edition: &str) -> (result: Result<SyntaxTree, String>)
    requires
        encode_utf8(source@).len() <= u32::MAX,
    ensures
        match result {
            Ok(t) => parsed_tree(source@, edition@, t),
            Err(message) => parse_failure(source@, edition@, message@),
        },
{
    let index = match edition_of(edition) {
        Some(index) => index,
        None => {
            let mut message = String::from_str("unsupported Rust edition: ");
            message.append(edition);
            return Err(message);
        },
    };
    match tree::parse_events(source, index) {
        Err(report) => {
            let mut message = String::from_str("source parser rejected this file: ");
            message.append(report.as_str());
            Err(message)
        },
        Ok(events) => match SyntaxTree::from_events(&events, source) {
            Some(t) => Ok(t),
            None => Err(String::from_str("source parser produced a malformed syntax tree")),
        },
    }
}

/// Lossless syntax tree and its derived source-unit model.
pub struct ParsedSource {
    /// The parsed file as a plain tree.
    pub tree: SyntaxTree,
    /// Spacing model; units remain inactive until compiler facts are attached.
    pub model: SourceModel,
}

impl ParsedSource {
    /// Whether the held tree is well formed.
    pub open spec fn wf(&self) -> bool {
        self.tree.wf()
    }

    /// The UTF-8 bytes of the parsed text.
    pub open spec fn text(&self) -> Seq<u8> {
        self.tree.text@
    }

    /// Syntax ranges suitable for synthetic *structural-only* test anchors: the
    /// code range of every unit, list by list.
    pub fn code_ranges(&self) -> (ranges: Vec<ByteRange>)
        ensures
            ranges@ == code_ranges_of(self.model.lists@),
    {
        let mut ranges: Vec<ByteRange> = Vec::new();
        let mut l: usize = 0;
        while l < self.model.lists.len()
            invariant
                l <= self.model.lists@.len(),
                ranges@ == code_ranges_of(self.model.lists@.subrange(0, l as int)),
            decreases self.model.lists@.len() - l,
        {
            let list = &self.model.lists[l];
            let ghost before = ranges@;
            let mut u: usize = 0;
            while u < list.units.len()
                invariant
                    u <= list.units@.len(),
                    ranges@ == before + list.units@.subrange(0, u as int).map_values(
                        |unit: crate::model::Unit| unit.code_range,
                    ),
                decreases list.units@.len() - u,
            {
                proof {
                    assert(list.units@.subrange(0, u + 1).map_values(
                        |unit: crate::model::Unit| unit.code_range,
                    ) =~= list.units@.subrange(0, u as int).map_values(
                        |unit: crate::model::Unit| unit.code_range,
                    ).push(list.units@[u as int].code_range));
                }
                ranges.push(list.units[u].code_range);
                u = u + 1;
            }
            proof {
                assert(list.units@.subrange(0, list.units@.len() as int) =~= list.units@);
                assert(self.model.lists@.subrange(0, l + 1).drop_last() =~= self.model.lists@.subrange(
                    0,
                    l as int,
                ));
            }
            l = l + 1;
        }
        proof {
            assert(self.model.lists@.subrange(0, self.model.lists@.len() as int)
                =~= self.model.lists@);
        }
        ranges
    }

    /// Rebuilds the model using active compiler anchors and resolved facts.
    ///
    /// `source` must be the same normalized text passed to [`parse_source`].
    pub fn attach(&mut self, source: &str, semantics: &SemanticIndex)
        requires
            old(self).wf(),
            old(self).text() == encode_utf8(source@),
        ensures
            final(self).wf(),
            final(self).text() == old(self).text(),
            final(self).tree == old(self).tree,
            model_shaped(final(self).text(), final(self).model),
            lowered(final(self).tree.elements@, final(self).text(), Some(semantics), final(self).model),
    {
        self.model = lower(&self.tree, source, Some(semantics));
    }
}

/// The code ranges of the units of a sequence of lists, list by list.
pub open spec fn code_ranges_of(lists: Seq<UnitList>) -> Seq<ByteRange>
    decreases lists.len(),
{
    if lists.len() == 0 {
        Seq::empty()
    } else {
        code_ranges_of(lists.drop_last()) + lists.last().units@.map_values(
            |unit: crate::model::Unit| unit.code_range,
        )
    }
}

/// Whether each list's gaps are the classified boundaries between its units and
/// its executable count is its number of non-item units.
pub open spec fn model_shaped(text: Seq<u8>, model: SourceModel) -> bool {
    forall|l: int|
        0 <= l < model.lists@.len() ==> gaps_between(text, #[trigger] model.lists@[l])
            && model.lists@[l].executable_count == executable_units(model.lists@[l].units@)
}

/// Parses normalized Rust source for the requested edition (`2015`, `2018`,
/// `2021` or `2024`).
///
/// Rejects unsupported edition strings and source containing parser errors.
/// Recovery trees are never used as a basis for editing. Without compiler
/// facts every unit is inactive.
pub fn parse_source(source: &str, edition: &str) -> (result: Result<ParsedSource, String>)
    requires
        encode_utf8(source@).len() <= u32::MAX,
    ensures
        match result {
            Ok(parsed) => parsed_tree(source@, edition@, parsed.tree) && model_shaped(
                parsed.text(),
                parsed.model,
            ) && inactive(parsed.model) && lowered(parsed.tree.elements@, parsed.text(), None, parsed.model),
            Err(message) => parse_failure(source@, edition@, message@),
        },
{
    let tree = parse_tree(source, edition)?;
    let model = lower(&tree, source, None);
    Ok(ParsedSource { tree, model })
}

/// The kind name and text bytes of each token of `els[k..]` that is not whitespace.
pub open spec fn fingerprint_from(els: Seq<Element>, text: Seq<u8>, k: int) -> Seq<
    (Seq<char>, Seq<u8>),
>
    decreases els.len() - k,
{
    if k < 0 || k >= els.len() {
        Seq::empty()
    } else if !els[k].node && els[k].kind != Kind::Whitespace {
        seq![(kind_name(els[k].code), element_text(text, els[k]))] + fingerprint_from(els, text, k + 1)
    } else {
        fingerprint_from(els, text, k + 1)
    }
}

/// The kind names and UTF-8 texts of a list of tokens.
pub open spec fn fingerprint_view(tokens: Seq<(String, String)>) -> Seq<(Seq<char>, Seq<u8>)> {
    tokens.map_values(|t: (String, String)| (t.0@, encode_utf8(t.1@)))
}

/// Returns token kinds and exact text, excluding only whitespace tokens.
/// Literal contents, comments, and macro token interiors are preserved.
///
/// Rejects unsupported editions and syntax errors as in [`parse_source`].
pub fn token_fingerprint(source: &str, edition: &str) -> (result: Result<Vec<(String, String)>, String>)
    requires
        encode_utf8(source@).len() <= u32::MAX,
    ensures
        match result {
            Ok(tokens) => exists|t: SyntaxTree|
                #![trigger parsed_tree(source@, edition@, t)]
                parsed_tree(source@, edition@, t) && fingerprint_view(tokens@) == fingerprint_from(
                    t.elements@,
                    t.text@,
                    0,
                ),
            Err(message) => parse_failure(source@, edition@, message@),
        },
{
    let tree = parse_tree(source, edition)?;
    let ghost els = tree.elements@;
    let mut tokens: Vec<(String, String)> = Vec::new();
    let mut k: usize = 0;
    while k < tree.elements.len()
        invariant
            tree.wf(),
            els == tree.elements@,
            tree.text@ == encode_utf8(source@),
            k <= els.len(),
            fingerprint_view(tokens@) + fingerprint_from(els, tree.text@, k as int)
                == fingerprint_from(els, tree.text@, 0),
        decreases els.len() - k,
    {
        let e = &tree.elements[k];
        if !e.node && e.kind != Kind::Whitespace {
            let text = crate::slices::substring(source, e.range.start, e.range.end);
            let pair = (e.name.clone(), text.to_owned());
            proof {
                assert(fingerprint_view(tokens@.push(pair)) =~= fingerprint_view(tokens@).push(
                    (pair.0@, encode_utf8(pair.1@)),
                ));
                assert(fingerprint_view(tokens@).push((pair.0@, encode_utf8(pair.1@)))
                    + fingerprint_from(els, tree.text@, k + 1) =~= fingerprint_view(tokens@) + (seq![
                    (kind_name(els[k as int].code), element_text(tree.text@, els[k as int])),
                ] + fingerprint_from(els, tree.text@, k + 1)));
            }
            tokens.push(pair);
        }
        k = k + 1;
    }
    proof {
        assert(fingerprint_view(tokens@) + Seq::empty() =~= fingerprint_view(tokens@));
    }
    Ok(tokens)
}

} // verus!
