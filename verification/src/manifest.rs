//! What a verified run checks of the replica's Cargo metadata and manifests:
//! the paths that must lie inside the workspace, and the manifest keys that
//! must not hold absolute paths.
use vstd::prelude::*;
use vstd::string::{StrSliceExecFns, StringExecFns};

use crate::syntax::tree::same_text;
use crate::json::{
    as_text, field, get, json_of, json_same, parse_json, same_json, text_at, text_view, JsonValue,
};

verus! {

/// One check of the Cargo metadata, in the order a run makes them.
pub enum MetadataCheck {
    /// The workspace root that Cargo resolved must be the replica's root.
    Root(String),
    /// The path must lie inside the workspace.
    Inside(String),
    /// The metadata is refused with this message.
    Fail(String),
}

/// A check as a kind (0 for the root, 1 for a path inside, 2 for a failure) and its text.
pub open spec fn check_view(c: MetadataCheck) -> (int, Seq<char>) {
    match c {
        MetadataCheck::Root(p) => (0, p@),
        MetadataCheck::Inside(p) => (1, p@),
        MetadataCheck::Fail(m) => (2, m@),
    }
}

/// The checks, each as [`check_view`] says.
pub open spec fn checks_view(checks: Seq<MetadataCheck>) -> Seq<(int, Seq<char>)> {
    checks.map_values(|c: MetadataCheck| check_view(c))
}

/// The message for metadata that lacks a field or has one of the wrong kind.
pub open spec fn malformed() -> Seq<char> {
    "malformed Cargo metadata"@
}

/// The check that a text field names a path inside the workspace, or the
/// failure where it is no text.
pub open spec fn path_step(text: Option<Seq<char>>) -> Seq<(int, Seq<char>)> {
    match text {
        Some(t) => seq![(1int, t)],
        None => seq![(2int, malformed())],
    }
}

/// The checks of the source paths of some targets.
pub open spec fn target_steps(targets: Seq<JsonValue>) -> Seq<(int, Seq<char>)>
    decreases targets.len(),
{
    if targets.len() == 0 {
        Seq::empty()
    } else {
        target_steps(targets.drop_last()) + path_step(as_text(field(targets.last(), "src_path"@)))
    }
}

/// The checks of the paths of some dependencies: those whose `path` is a
/// non-empty text.
pub open spec fn dependency_steps(dependencies: Seq<JsonValue>) -> Seq<(int, Seq<char>)>
    decreases dependencies.len(),
{
    if dependencies.len() == 0 {
        Seq::empty()
    } else {
        dependency_steps(dependencies.drop_last()) + match as_text(field(dependencies.last(), "path"@)) {
            Some(p) => if p.len() > 0 {
                seq![(1int, p)]
            } else {
                Seq::empty()
            },
            None => Seq::empty(),
        }
    }
}

/// The `id` of a package, `null` where it has none.
pub open spec fn package_id(package: JsonValue) -> JsonValue {
    match field(package, "id"@) {
        Some(id) => id,
        None => JsonValue::Null,
    }
}

/// Whether a package is a workspace member: its id equals one of the members.
pub open spec fn is_member(members: Seq<JsonValue>, package: JsonValue) -> bool {
    exists|i: int| 0 <= i < members.len() && json_same(#[trigger] members[i], package_id(package))
}

/// The checks of one member package: its manifest path, the source path of each
/// target, and the path of each dependency that has one.
pub open spec fn member_steps(package: JsonValue) -> Seq<(int, Seq<char>)> {
    path_step(as_text(field(package, "manifest_path"@))) + match field(package, "targets"@) {
        Some(JsonValue::Array(targets)) => target_steps(targets@),
        _ => seq![(2int, malformed())],
    } + match field(package, "dependencies"@) {
        Some(JsonValue::Array(dependencies)) => dependency_steps(dependencies@),
        _ => seq![(2int, malformed())],
    }
}

/// The checks of the member packages among `packages`, in order.
pub open spec fn package_steps(members: Seq<JsonValue>, packages: Seq<JsonValue>) -> Seq<(int, Seq<char>)>
    decreases packages.len(),
{
    if packages.len() == 0 {
        Seq::empty()
    } else {
        package_steps(members, packages.drop_last()) + if is_member(members, packages.last()) {
            member_steps(packages.last())
        } else {
            Seq::empty()
        }
    }
}

/// The elements of a field that is an array; none where it is not.
pub open spec fn array_items(v: Option<JsonValue>) -> Seq<JsonValue> {
    match v {
        Some(JsonValue::Array(items)) => items@,
        _ => Seq::empty(),
    }
}

/// The failure where a field is no array.
pub open spec fn array_step(v: Option<JsonValue>) -> Seq<(int, Seq<char>)> {
    match v {
        Some(JsonValue::Array(_)) => Seq::empty(),
        _ => seq![(2int, malformed())],
    }
}

/// The checks of Cargo's metadata: the workspace root, that the member and
/// package lists are arrays, the paths of each member package, and that there
/// is a member package. A run stops at the first failure, so what follows a
/// failure here (read as if the faulty part were empty) is never checked.
pub open spec fn metadata_steps(v: JsonValue) -> Seq<(int, Seq<char>)> {
    let members = array_items(field(v, "workspace_members"@));
    let packages = array_items(field(v, "packages"@));
    let found = exists|i: int| 0 <= i < packages.len() && is_member(members, #[trigger] packages[i]);
    let root_step = match as_text(field(v, "workspace_root"@)) {
        Some(root) => seq![(0int, root)],
        None => seq![(2int, malformed())],
    };
    root_step + array_step(field(v, "workspace_members"@)) + array_step(field(v, "packages"@)) + package_steps(
        members,
        packages,
    ) + if found {
        Seq::empty()
    } else {
        seq![(2int, "the workspace has no compilable member packages"@)]
    }
}

/// Appends the check of a text field naming a path inside the workspace.
fn push_path(checks: &mut Vec<MetadataCheck>, text: Option<String>)
    ensures
        checks_view(final(checks)@) == checks_view(old(checks)@) + path_step(
            match text {
                Some(t) => Some(t@),
                None => None,
            },
        ),
{
    match text {
        Some(t) => checks.push(MetadataCheck::Inside(t)),
        None => checks.push(MetadataCheck::Fail(String::from_str("malformed Cargo metadata"))),
    }
    proof {
        reveal_strlit("malformed Cargo metadata");
        assert(checks_view(checks@) =~= checks_view(old(checks)@) + path_step(
            match text {
                Some(t) => Some(t@),
                None => None,
            },
        ));
    }
}

/// Appends the failure of a field that is no array.
fn push_malformed(checks: &mut Vec<MetadataCheck>)
    ensures
        checks_view(final(checks)@) == checks_view(old(checks)@) + seq![(2int, malformed())],
{
    checks.push(MetadataCheck::Fail(String::from_str("malformed Cargo metadata")));
    proof {
        assert(checks_view(checks@) =~= checks_view(old(checks)@) + seq![(2int, malformed())]);
    }
}

/// Appends the checks of one member package.
fn push_member(checks: &mut Vec<MetadataCheck>, package: &JsonValue)
    ensures
        checks_view(final(checks)@) == checks_view(old(checks)@) + member_steps(*package),
{
    let ghost start = checks_view(checks@);
    push_path(checks, text_at(get(package, "manifest_path")));
    let ghost after_manifest = checks_view(checks@);
    match get(package, "targets") {
        Some(JsonValue::Array(targets)) => {
            let mut i: usize = 0;
            while i < targets.len()
                invariant
                    i <= targets@.len(),
                    checks_view(checks@) == after_manifest + target_steps(targets@.take(i as int)),
                decreases targets@.len() - i,
            {
                proof {
                    assert(targets@.take(i + 1).drop_last() =~= targets@.take(i as int));
                }
                push_path(checks, text_at(get(&targets[i], "src_path")));
                proof {
                    assert(checks_view(checks@) =~= after_manifest + target_steps(targets@.take(i + 1)));
                }
                i = i + 1;
            }
            proof {
                assert(targets@.take(i as int) =~= targets@);
            }
        },
        _ => push_malformed(checks),
    }
    let ghost after_targets = checks_view(checks@);
    match get(package, "dependencies") {
        Some(JsonValue::Array(dependencies)) => {
            let mut i: usize = 0;
            while i < dependencies.len()
                invariant
                    i <= dependencies@.len(),
                    checks_view(checks@) == after_targets + dependency_steps(dependencies@.take(i as int)),
                decreases dependencies@.len() - i,
            {
                proof {
                    assert(dependencies@.take(i + 1).drop_last() =~= dependencies@.take(i as int));
                }
                let path = text_at(get(&dependencies[i], "path"));
                let ghost step = checks_view(checks@);
                match path {
                    Some(p) => {
                        if !p.as_str().is_empty() {
                            checks.push(MetadataCheck::Inside(p));
                            proof {
                                assert(checks_view(checks@) =~= step + seq![(1int, p@)]);
                            }
                        }
                    },
                    None => {},
                }
                proof {
                    assert(dependencies@.take(i + 1).last() == dependencies@[i as int]);
                }
                proof {
                    assert(checks_view(checks@) =~= after_targets + dependency_steps(
                        dependencies@.take(i + 1),
                    ));
                }
                i = i + 1;
            }
            proof {
                assert(dependencies@.take(i as int) =~= dependencies@);
            }
        },
        _ => push_malformed(checks),
    }
    proof {
        assert(checks_view(checks@) =~= start + member_steps(*package));
    }
}

/// Whether a package is a workspace member.
fn member_of(members: &Vec<JsonValue>, package: &JsonValue) -> (member: bool)
    ensures
        member == is_member(members@, *package),
{
    let null = JsonValue::Null;
    let id = match get(package, "id") {
        Some(id) => id,
        None => &null,
    };
    let mut i: usize = 0;
    while i < members.len()
        invariant
            i <= members@.len(),
            *id == package_id(*package),
            forall|m: int| 0 <= m < i ==> !json_same(#[trigger] members@[m], package_id(*package)),
        decreases members@.len() - i,
    {
        if same_json(&members[i], id) {
            return true;
        }
        i = i + 1;
    }
    false
}

/// The checks that a run makes of Cargo's metadata, as [`metadata_steps`] says.
pub fn metadata_checks(v: &JsonValue) -> (checks: Vec<MetadataCheck>)
    ensures
        checks_view(checks@) == metadata_steps(*v),
{
    let mut checks: Vec<MetadataCheck> = Vec::new();
    match text_at(get(v, "workspace_root")) {
        Some(root) => checks.push(MetadataCheck::Root(root)),
        None => checks.push(MetadataCheck::Fail(String::from_str("malformed Cargo metadata"))),
    }
    proof {
        reveal_strlit("malformed Cargo metadata");
        let root_step = match as_text(field(*v, "workspace_root"@)) {
            Some(root) => seq![(0int, root)],
            None => seq![(2int, malformed())],
        };
        assert(checks_view(checks@) =~= root_step);
    }
    let ghost after_root = checks_view(checks@);
    let empty: Vec<JsonValue> = Vec::new();
    let members = match get(v, "workspace_members") {
        Some(JsonValue::Array(items)) => items,
        _ => {
            push_malformed(&mut checks);
            &empty
        },
    };
    let packages = match get(v, "packages") {
        Some(JsonValue::Array(items)) => items,
        _ => {
            push_malformed(&mut checks);
            &empty
        },
    };
    let ghost before = checks_view(checks@);
    proof {
        assert(members@ == array_items(field(*v, "workspace_members"@)));
        assert(packages@ == array_items(field(*v, "packages"@)));
        assert(before =~= after_root + array_step(field(*v, "workspace_members"@)) + array_step(
            field(*v, "packages"@),
        ));
    }
    let mut found = false;
    let mut i: usize = 0;
    while i < packages.len()
        invariant
            i <= packages@.len(),
            checks_view(checks@) == before + package_steps(members@, packages@.take(i as int)),
            found == exists|k: int| 0 <= k < i && is_member(members@, #[trigger] packages@[k]),
        decreases packages@.len() - i,
    {
        proof {
            assert(packages@.take(i + 1).drop_last() =~= packages@.take(i as int));
            assert(packages@.take(i + 1).last() == packages@[i as int]);
        }
        if member_of(members, &packages[i]) {
            found = true;
            push_member(&mut checks, &packages[i]);
        }
        proof {
            assert(checks_view(checks@) =~= before + package_steps(members@, packages@.take(i + 1)));
        }
        i = i + 1;
    }
    proof {
        assert(packages@.take(i as int) =~= packages@);
    }
    let ghost listed = checks_view(checks@);
    if !found {
        checks.push(MetadataCheck::Fail(String::from_str("the workspace has no compilable member packages")));
        proof {
            assert(checks_view(checks@) =~= listed + seq![(2int, "the workspace has no compilable member packages"@)]);
        }
    }
    proof {
        assert(checks_view(checks@) =~= metadata_steps(*v));
    }
    checks
}

/// Parses Cargo's metadata output and gives the checks a run makes of it; the
/// parser's error where the output is no JSON.
pub fn read_metadata(text: &str) -> (checks: Result<Vec<MetadataCheck>, String>)
    ensures
        match json_of(text@) {
            Ok(v) => checks matches Ok(cs) && checks_view(cs@) == metadata_steps(v),
            Err(e) => checks matches Err(m) && m@ == e,
        },
{
    match parse_json(text) {
        Ok(v) => Ok(metadata_checks(&v)),
        Err(e) => Err(e),
    }
}

/// What the TOML parser gives for a Cargo manifest: the document as JSON values
/// (tables as objects, strings as texts), or the text of its error.
pub uninterp spec fn parsed_manifest(document: Seq<char>) -> Result<JsonValue, Seq<char>>;

/// Calls `toml::from_str` for a `toml::Value`, and converts the value by
/// writing it with `serde_json::to_string` and reading that with
/// [`parse_json`]: tables become objects, arrays arrays and strings texts. The
/// contract names the result, or the text of the error.
#[verifier::external_body]
pub fn parse_manifest(document: &str) -> (value: Result<JsonValue, String>)
    ensures
        match value {
            Ok(v) => parsed_manifest(document@) == Ok::<JsonValue, Seq<char>>(v),
            Err(e) => parsed_manifest(document@) == Err::<JsonValue, Seq<char>>(e@),
        },
{
    let table: toml::Value = toml::from_str(document).map_err(|error| error.to_string())?;
    parse_json(&serde_json::to_string(&table).map_err(|error| error.to_string())?)
}

/// Whether a path is absolute: it starts at the root.
pub open spec fn is_absolute(path: Seq<char>) -> bool {
    path.len() > 0 && path[0] == '/'
}

/// Whether a manifest key names a path that Cargo resolves: `path` or `build`.
pub open spec fn path_key(key: Seq<char>) -> bool {
    key == "path"@ || key == "build"@
}

/// The first absolute path that a `path` or `build` key holds in a manifest
/// value, depth first: each key is looked at before the value under it.
pub open spec fn first_absolute(v: JsonValue) -> Option<Seq<char>>
    decreases v,
{
    match v {
        JsonValue::Object(entries) => {
            proof {
                vstd::std_specs::vec::axiom_vec_decreases_to_view(entries);
                assert(decreases_to!(v => v->Object_0));
            }
            entries_absolute(entries@)
        },
        JsonValue::Array(items) => {
            proof {
                vstd::std_specs::vec::axiom_vec_decreases_to_view(items);
                assert(decreases_to!(v => v->Array_0));
            }
            items_absolute(items@)
        },
        _ => None,
    }
}

/// The first absolute path among some table entries, in order.
pub open spec fn entries_absolute(entries: Seq<(String, JsonValue)>) -> Option<Seq<char>>
    decreases entries,
{
    if entries.len() == 0 {
        None
    } else {
        let key = entries[0].0;
        let child = entries[0].1;
        if path_key(key@) && child is Text && is_absolute(child->Text_0@) {
            Some(child->Text_0@)
        } else {
            match first_absolute(child) {
                Some(p) => Some(p),
                None => entries_absolute(entries.drop_first()),
            }
        }
    }
}

/// The first absolute path among some array elements, in order.
pub open spec fn items_absolute(items: Seq<JsonValue>) -> Option<Seq<char>>
    decreases items,
{
    if items.len() == 0 {
        None
    } else {
        match first_absolute(items[0]) {
            Some(p) => Some(p),
            None => items_absolute(items.drop_first()),
        }
    }
}

/// Whether a path is absolute.
fn absolute(path: &str) -> (found: bool)
    ensures
        found == is_absolute(path@),
{
    path.unicode_len() > 0 && path.get_char(0) == '/'
}

/// The first absolute path that a `path` or `build` key holds in a manifest value.
fn absolute_in(v: &JsonValue) -> (found: Option<String>)
    ensures
        text_view(found) == first_absolute(*v),
    decreases *v,
{
    match v {
        JsonValue::Object(entries) => {
            let mut k: usize = 0;
            proof {
                assert(entries@.subrange(0, entries@.len() as int) =~= entries@);
            }
            while k < entries.len()
                invariant
                    *v == JsonValue::Object(*entries),
                    k <= entries@.len(),
                    first_absolute(*v) == entries_absolute(entries@.subrange(k as int, entries@.len() as int)),
                decreases entries@.len() - k,
            {
                let ghost rest = entries@.subrange(k as int, entries@.len() as int);
                proof {
                    assert(rest[0] == entries@[k as int]);
                    assert(rest.drop_first() =~= entries@.subrange(k + 1, entries@.len() as int));
                    vstd::std_specs::vec::axiom_vec_index_decreases(*entries, k as int);
                    assert(decreases_to!(*v => (*v)->Object_0));
                    assert(decreases_to!(*v => entries@[k as int].1));
                }
                let key = entries[k].0.as_str();
                let child = &entries[k].1;
                if same_text(key, "path") || same_text(key, "build") {
                    if let JsonValue::Text(name) = child {
                        if absolute(name.as_str()) {
                            proof {
                                reveal_strlit("path");
                                reveal_strlit("build");
                            }
                            return Some(String::from_str(name.as_str()));
                        }
                    }
                }
                proof {
                    reveal_strlit("path");
                    reveal_strlit("build");
                }
                let below = absolute_in(child);
                if below.is_some() {
                    return below;
                }
                k = k + 1;
            }
            proof {
                assert(entries@.subrange(k as int, entries@.len() as int) =~= Seq::<(String, JsonValue)>::empty());
            }
            None
        },
        JsonValue::Array(items) => {
            let mut k: usize = 0;
            proof {
                assert(items@.subrange(0, items@.len() as int) =~= items@);
            }
            while k < items.len()
                invariant
                    *v == JsonValue::Array(*items),
                    k <= items@.len(),
                    first_absolute(*v) == items_absolute(items@.subrange(k as int, items@.len() as int)),
                decreases items@.len() - k,
            {
                let ghost rest = items@.subrange(k as int, items@.len() as int);
                proof {
                    assert(rest[0] == items@[k as int]);
                    assert(rest.drop_first() =~= items@.subrange(k + 1, items@.len() as int));
                    vstd::std_specs::vec::axiom_vec_index_decreases(*items, k as int);
                    assert(decreases_to!(*v => (*v)->Array_0));
                    assert(decreases_to!(*v => items@[k as int]));
                }
                let below = absolute_in(&items[k]);
                if below.is_some() {
                    return below;
                }
                k = k + 1;
            }
            proof {
                assert(items@.subrange(k as int, items@.len() as int) =~= Seq::<JsonValue>::empty());
            }
            None
        },
        _ => None,
    }
}

/// Why a Cargo manifest at `path` cannot be relocated: its text is no valid
/// manifest, or a `path` or `build` key holds an absolute path.
pub open spec fn manifest_error(path: Seq<char>, document: Seq<char>) -> Option<Seq<char>> {
    match parsed_manifest(document) {
        Err(e) => Some("invalid Cargo manifest "@ + path + ": "@ + e),
        Ok(v) => match first_absolute(v) {
            Some(name) => Some("absolute manifest path cannot be relocated safely: "@ + path + ": "@ + name),
            None => None,
        },
    }
}

/// Checks that a Cargo manifest parses and that none of its `path` or `build`
/// keys, at any depth, holds an absolute path.
pub fn check_manifest(path: &str, document: &str) -> (result: Result<(), String>)
    ensures
        match manifest_error(path@, document@) {
            Some(message) => result matches Err(e) && e@ == message,
            None => result is Ok,
        },
{
    match parse_manifest(document) {
        Err(e) => {
            let mut message = String::from_str("invalid Cargo manifest ");
            message.append(path);
            message.append(": ");
            message.append(e.as_str());
            proof {
                reveal_strlit("invalid Cargo manifest ");
                reveal_strlit(": ");
            }
            Err(message)
        },
        Ok(v) => match absolute_in(&v) {
            Some(name) => {
                let mut message = String::from_str("absolute manifest path cannot be relocated safely: ");
                message.append(path);
                message.append(": ");
                message.append(name.as_str());
                proof {
                    reveal_strlit("absolute manifest path cannot be relocated safely: ");
                    reveal_strlit(": ");
                }
                Err(message)
            },
            None => Ok(()),
        },
    }
}


} // verus!
