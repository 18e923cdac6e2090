//! Subtrees whose spacing is not this tool's to change: those under a rustfmt
//! skip, under an attribute that may rewrite the syntax, or inside macro tokens.
use vstd::prelude::*;
use vstd::utf8::encode_utf8;

use crate::slices::{find_first, find_in, occurs_at, same_bytes};
use crate::syntax::comments::space_byte;
use crate::syntax::tree::{child_nodes, element_text, Element, Kind, SyntaxTree};

verus! {

/// The bytes of a text without its ASCII whitespace.
pub open spec fn without_spaces(bytes: Seq<u8>) -> Seq<u8>
    decreases bytes.len(),
{
    if bytes.len() == 0 {
        Seq::empty()
    } else if space_byte(bytes.last()) {
        without_spaces(bytes.drop_last())
    } else {
        without_spaces(bytes.drop_last()).push(bytes.last())
    }
}

/// A text without every leading repetition of a prefix.
pub open spec fn strip_repeated(bytes: Seq<u8>, prefix: Seq<u8>) -> Seq<u8>
    decreases bytes.len(),
{
    if prefix.len() > 0 && occurs_at(bytes, prefix, 0) {
        strip_repeated(bytes.subrange(prefix.len() as int, bytes.len() as int), prefix)
    } else {
        bytes
    }
}

/// The leading part of a text before its first `(`, `=` or `]`.
pub open spec fn name_part(bytes: Seq<u8>) -> Seq<u8>
    decreases bytes.len(),
{
    if bytes.len() == 0 || bytes[0] == 40 || bytes[0] == 61 || bytes[0] == 93 {
        Seq::empty()
    } else {
        seq![bytes[0]] + name_part(bytes.drop_first())
    }
}

/// Whether an attribute name belongs to the compiler's built-in attributes that
/// leave the source's syntax as written.
pub open spec fn known_attribute(name: Seq<u8>) -> bool {
    ||| name == encode_utf8("allow"@)
    ||| name == encode_utf8("warn"@)
    ||| name == encode_utf8("deny"@)
    ||| name == encode_utf8("forbid"@)
    ||| name == encode_utf8("expect"@)
    ||| name == encode_utf8("cfg"@)
    ||| name == encode_utf8("cfg_attr"@)
    ||| name == encode_utf8("derive"@)
    ||| name == encode_utf8("doc"@)
    ||| name == encode_utf8("inline"@)
    ||| name == encode_utf8("cold"@)
    ||| name == encode_utf8("must_use"@)
    ||| name == encode_utf8("test"@)
    ||| name == encode_utf8("ignore"@)
    ||| name == encode_utf8("should_panic"@)
    ||| name == encode_utf8("track_caller"@)
    ||| name == encode_utf8("repr"@)
    ||| name == encode_utf8("deprecated"@)
    ||| name == encode_utf8("non_exhaustive"@)
    ||| name == encode_utf8("no_mangle"@)
    ||| name == encode_utf8("export_name"@)
    ||| name == encode_utf8("link_name"@)
    ||| name == encode_utf8("link"@)
    ||| name == encode_utf8("path"@)
    ||| name == encode_utf8("macro_export"@)
    ||| name == encode_utf8("macro_use"@)
    ||| name == encode_utf8("automatically_derived"@)
    ||| name == encode_utf8("unsafe"@)
    ||| name == encode_utf8("target_feature"@)
    ||| name == encode_utf8("no_std"@)
    ||| name == encode_utf8("no_main"@)
    ||| name == encode_utf8("recursion_limit"@)
    ||| name == encode_utf8("type_length_limit"@)
    ||| name == encode_utf8("feature"@)
}

/// Whether an attribute protects what it annotates: any rustfmt skip, even a
/// conditional one, and any attribute not known to leave the syntax as written.
pub open spec fn attribute_protects(attribute: Seq<u8>) -> bool {
    let compact = without_spaces(attribute);
    find_first(compact, encode_utf8("rustfmt::skip"@)) is Some || !known_attribute(
        name_part(strip_repeated(strip_repeated(compact, encode_utf8("#!["@)), encode_utf8("#["@))),
    )
}

/// Whether some attribute child of node `a` protects it.
pub open spec fn protecting_attribute(els: Seq<Element>, text: Seq<u8>, a: int) -> bool {
    exists|k: int|
        0 <= k < child_nodes(els, a).len() && els[child_nodes(els, a)[k] as int].kind == Kind::Attr
            && attribute_protects(element_text(text, els[#[trigger] child_nodes(els, a)[k] as int]))
}

/// Whether node `a` or one of its ancestors carries a protecting attribute.
pub open spec fn spec_protected(els: Seq<Element>, text: Seq<u8>, a: int) -> bool
    decreases a,
{
    if protecting_attribute(els, text, a) {
        true
    } else if 0 < a < els.len() && els[a].parent < a {
        spec_protected(els, text, els[a].parent as int)
    } else {
        false
    }
}

/// Whether node `a` lies within a macro's token tree or a macro definition.
pub open spec fn spec_in_token_tree(els: Seq<Element>, a: int) -> bool
    decreases a,
{
    if els[a].kind == Kind::TokenTree || els[a].kind == Kind::MacroRules {
        true
    } else if 0 < a < els.len() && els[a].parent < a {
        spec_in_token_tree(els, els[a].parent as int)
    } else {
        false
    }
}

/// Whether `name` is a built-in attribute that leaves the syntax as written.
fn known_attribute_name(name: &[u8]) -> (known: bool)
    ensures
        known == known_attribute(name@),
{
    same_bytes(name, "allow".as_bytes()) || same_bytes(name, "warn".as_bytes()) || same_bytes(
        name,
        "deny".as_bytes(),
    ) || same_bytes(name, "forbid".as_bytes()) || same_bytes(name, "expect".as_bytes())
        || same_bytes(name, "cfg".as_bytes()) || same_bytes(name, "cfg_attr".as_bytes())
        || same_bytes(name, "derive".as_bytes()) || same_bytes(name, "doc".as_bytes())
        || same_bytes(name, "inline".as_bytes()) || same_bytes(name, "cold".as_bytes())
        || same_bytes(name, "must_use".as_bytes()) || same_bytes(name, "test".as_bytes())
        || same_bytes(name, "ignore".as_bytes()) || same_bytes(name, "should_panic".as_bytes())
        || same_bytes(name, "track_caller".as_bytes()) || same_bytes(name, "repr".as_bytes())
        || same_bytes(name, "deprecated".as_bytes()) || same_bytes(
        name,
        "non_exhaustive".as_bytes(),
    ) || same_bytes(name, "no_mangle".as_bytes()) || same_bytes(name, "export_name".as_bytes())
        || same_bytes(name, "link_name".as_bytes()) || same_bytes(name, "link".as_bytes())
        || same_bytes(name, "path".as_bytes()) || same_bytes(name, "macro_export".as_bytes())
        || same_bytes(name, "macro_use".as_bytes()) || same_bytes(
        name,
        "automatically_derived".as_bytes(),
    ) || same_bytes(name, "unsafe".as_bytes()) || same_bytes(name, "target_feature".as_bytes())
        || same_bytes(name, "no_std".as_bytes()) || same_bytes(name, "no_main".as_bytes())
        || same_bytes(name, "recursion_limit".as_bytes()) || same_bytes(
        name,
        "type_length_limit".as_bytes(),
    ) || same_bytes(name, "feature".as_bytes())
}

/// The bytes of `bytes[lo..hi]` without ASCII whitespace.
fn compact(bytes: &[u8], lo: usize, hi: usize) -> (out: Vec<u8>)
    requires
        lo <= hi <= bytes@.len(),
    ensures
        out@ == without_spaces(bytes@.subrange(lo as int, hi as int)),
{
    let mut out: Vec<u8> = Vec::new();
    let mut i = lo;
    while i < hi
        invariant
            lo <= i <= hi <= bytes@.len(),
            out@ == without_spaces(bytes@.subrange(lo as int, i as int)),
        decreases hi - i,
    {
        proof {
            assert(bytes@.subrange(lo as int, i + 1).drop_last() =~= bytes@.subrange(
                lo as int,
                i as int,
            ));
        }
        let b = bytes[i];
        if !(b == 9 || b == 10 || b == 11 || b == 12 || b == 13 || b == 32) {
            out.push(b);
        }
        i = i + 1;
    }
    out
}

/// The offset past every leading repetition of `prefix` in `bytes[lo..]`.
fn skip_repeated(bytes: &[u8], lo: usize, prefix: &[u8]) -> (next: usize)
    requires
        lo <= bytes@.len(),
    ensures
        lo <= next <= bytes@.len(),
        bytes@.subrange(next as int, bytes@.len() as int) == strip_repeated(
            bytes@.subrange(lo as int, bytes@.len() as int),
            prefix@,
        ),
{
    if prefix.len() == 0 {
        return lo;
    }
    let mut i = lo;
    loop
        invariant
            lo <= i <= bytes@.len(),
            prefix@.len() > 0,
            strip_repeated(bytes@.subrange(lo as int, bytes@.len() as int), prefix@)
                == strip_repeated(bytes@.subrange(i as int, bytes@.len() as int), prefix@),
        decreases bytes@.len() - i,
    {
        let ghost rest = bytes@.subrange(i as int, bytes@.len() as int);
        let found = find_in(bytes, i, bytes.len(), prefix);
        let at_start = match found {
            Some(k) => k == 0,
            None => false,
        };
        proof {
            crate::syntax::comments::lemma_find_bounds(rest, prefix@);
            crate::syntax::comments::lemma_find_from_bounds(rest, prefix@, 1);
            if at_start {
                assert(crate::slices::find_from(rest, prefix@, 0) == Some(0int));
                assert(occurs_at(rest, prefix@, 0));
                assert(rest.subrange(prefix@.len() as int, rest.len() as int) =~= bytes@.subrange(
                    i + prefix@.len(),
                    bytes@.len() as int,
                ));
            } else {
                assert(!occurs_at(rest, prefix@, 0));
            }
        }
        if !at_start {
            return i;
        }
        i = i + prefix.len();
    }
}

/// Whether an attribute's text protects what it annotates.
pub fn attribute_protects_text(bytes: &[u8], lo: usize, hi: usize) -> (protects: bool)
    requires
        lo <= hi <= bytes@.len(),
    ensures
        protects == attribute_protects(bytes@.subrange(lo as int, hi as int)),
{
    let text = compact(bytes, lo, hi);
    let skip = find_in(text.as_slice(), 0, text.len(), "rustfmt::skip".as_bytes());
    proof {
        assert(text@.subrange(0, text@.len() as int) =~= text@);
    }
    if skip.is_some() {
        return true;
    }
    let after_inner = skip_repeated(text.as_slice(), 0, "#![".as_bytes());
    let after_outer = skip_repeated(text.as_slice(), after_inner, "#[".as_bytes());
    let mut end = after_outer;
    while end < text.len() && text[end] != 40 && text[end] != 61 && text[end] != 93
        invariant
            after_outer <= end <= text@.len(),
            name_part(text@.subrange(after_outer as int, text@.len() as int)) == text@.subrange(
                after_outer as int,
                end as int,
            ) + name_part(text@.subrange(end as int, text@.len() as int)),
        decreases text@.len() - end,
    {
        proof {
            let rest = text@.subrange(end as int, text@.len() as int);
            assert(rest[0] == text@[end as int]);
            assert(rest.drop_first() =~= text@.subrange(end + 1, text@.len() as int));
            assert(text@.subrange(after_outer as int, end + 1) =~= text@.subrange(
                after_outer as int,
                end as int,
            ) + seq![rest[0]]);
        }
        end = end + 1;
    }
    proof {
        let rest = text@.subrange(end as int, text@.len() as int);
        if rest.len() > 0 {
            assert(rest[0] == text@[end as int]);
        }
        assert(name_part(rest) =~= Seq::<u8>::empty());
        assert(text@.subrange(after_outer as int, end as int) + Seq::<u8>::empty()
            =~= text@.subrange(after_outer as int, end as int));
    }
    let name = crate::syntax::comments::slice_of(text.as_slice(), after_outer, end);
    !known_attribute_name(name)
}

/// Whether some attribute child of node `a` protects it.
fn has_protecting_attribute(tree: &SyntaxTree, bytes: &[u8], a: usize) -> (found: bool)
    requires
        tree.wf(),
        a < tree.size(),
        bytes@ == tree.text@,
    ensures
        found == protecting_attribute(tree.elements@, tree.text@, a as int),
{
    let ghost els = tree.elements@;
    let children = tree.children(a);
    let mut k: usize = 0;
    while k < children.len()
        invariant
            tree.wf(),
            els == tree.elements@,
            bytes@ == tree.text@,
            a < tree.size(),
            children@ == child_nodes(els, a as int),
            forall|j: int| 0 <= j < children@.len() ==> a < #[trigger] children@[j] < tree.size(),
            k <= children@.len(),
            forall|j: int|
                0 <= j < k ==> !(els[children@[j] as int].kind == Kind::Attr && attribute_protects(
                    element_text(tree.text@, els[#[trigger] children@[j] as int]),
                )),
        decreases children@.len() - k,
    {
        let c = children[k];
        if tree.elements[c].kind == Kind::Attr {
            let range = tree.elements[c].range;
            if attribute_protects_text(bytes, range.start, range.end) {
                return true;
            }
        }
        k = k + 1;
    }
    false
}

/// Whether node `a` or one of its ancestors carries a protecting attribute.
pub fn protected(tree: &SyntaxTree, bytes: &[u8], a: usize) -> (is_protected: bool)
    requires
        tree.wf(),
        a < tree.size(),
        bytes@ == tree.text@,
    ensures
        is_protected == spec_protected(tree.elements@, tree.text@, a as int),
    decreases a,
{
    if has_protecting_attribute(tree, bytes, a) {
        return true;
    }
    if a == 0 {
        return false;
    }
    protected(tree, bytes, tree.elements[a].parent)
}

/// Whether node `a` lies within a macro's token tree or a macro definition.
pub fn inside_token_tree(tree: &SyntaxTree, a: usize) -> (inside: bool)
    requires
        tree.wf(),
        a < tree.size(),
    ensures
        inside == spec_in_token_tree(tree.elements@, a as int),
    decreases a,
{
    if tree.elements[a].kind == Kind::TokenTree || tree.elements[a].kind == Kind::MacroRules {
        return true;
    }
    if a == 0 {
        return false;
    }
    inside_token_tree(tree, tree.elements[a].parent)
}

} // verus!
