//! Which files of a workspace the lint checks: files under the workspace root
//! that no `target` directory holds, that no configured exclusion pattern
//! matches, and, unless asked for, that are not generated.
use globset::{Glob, GlobSet, GlobSetBuilder};
use vstd::prelude::*;
use vstd::string::StringExecFns;
use vstd::utf8::encode_utf8;

use crate::config::{Config, ControlFlow, ErrorHandling, Exits, Grouping, Items};
use crate::model::Rule;
use crate::runs::{join, joined, split_from, split_text, views};
use crate::slices::find_in;
use crate::syntax::tree::same_text;

verus! {

#[verifier::external_type_specification]
#[verifier::external_body]
pub struct ExGlobSet(GlobSet);

#[verifier::external_type_specification]
#[verifier::external_body]
pub struct ExGlobSetBuilder(GlobSetBuilder);

/// The glob patterns added to a glob set builder, in order.
pub uninterp spec fn added_patterns(builder: GlobSetBuilder) -> Seq<Seq<char>>;

/// The glob patterns that a glob set was built from, in order.
pub uninterp spec fn set_patterns(set: GlobSet) -> Seq<Seq<char>>;

/// The `Display` text of the error with which `Glob::new` refuses a pattern,
/// if it refuses it.
pub uninterp spec fn glob_error(pattern: Seq<char>) -> Option<Seq<char>>;

/// The `Display` text of the error with which `GlobSetBuilder::build` fails
/// on some patterns, if it fails.
pub uninterp spec fn glob_set_error(patterns: Seq<Seq<char>>) -> Option<Seq<char>>;

/// What `GlobSet::is_match` answers for a set built from some patterns and a path.
pub uninterp spec fn set_matches(patterns: Seq<Seq<char>>, path: Seq<char>) -> bool;

/// Calls `GlobSetBuilder::new`, which starts with no patterns.
#[verifier::external_body]
fn new_builder() -> (builder: GlobSetBuilder)
    ensures
        added_patterns(builder) == Seq::<Seq<char>>::empty(),
{
    GlobSetBuilder::new()
}

/// Calls `GlobSetBuilder::add` with the glob that `Glob::new` makes of a
/// pattern: the builder's patterns grow by the pattern; when `Glob::new`
/// refuses the pattern, the builder is left alone and the error's text returned.
#[verifier::external_body]
fn add_pattern(builder: &mut GlobSetBuilder, pattern: &str) -> (result: Result<(), String>)
    ensures
        match result {
            Ok(()) => glob_error(pattern@) is None && added_patterns(*final(builder)) == added_patterns(
                *old(builder),
            ).push(pattern@),
            Err(e) => glob_error(pattern@) == Some(e@) && added_patterns(*final(builder))
                == added_patterns(*old(builder)),
        },
{
    let glob = Glob::new(pattern).map_err(|error| error.to_string())?;
    builder.add(glob);
    Ok(())
}

/// Calls `GlobSetBuilder::build`: a set of the builder's patterns, or the
/// error's text.
#[verifier::external_body]
fn build_set(builder: &GlobSetBuilder) -> (set: Result<GlobSet, String>)
    ensures
        match set {
            Ok(s) => glob_set_error(added_patterns(*builder)) is None && set_patterns(s)
                == added_patterns(*builder),
            Err(e) => glob_set_error(added_patterns(*builder)) == Some(e@),
        },
{
    builder.build().map_err(|error| error.to_string())
}

/// Calls `GlobSet::is_match` on a path.
#[verifier::external_body]
fn set_is_match(set: &GlobSet, path: &str) -> (matched: bool)
    ensures
        matched == set_matches(set_patterns(*set), path@),
{
    set.is_match(path)
}

/// Whether an exclusion pattern stays inside the workspace: it is not
/// absolute and no `/`-separated part of it is `..`.
pub open spec fn relative_pattern(pattern: Seq<char>) -> bool {
    !(pattern.len() > 0 && pattern[0] == '/') && !split_from(pattern, '/', 0).contains(".."@)
}

/// The complaint about the exclusion patterns from `k` on, checked in order:
/// one that leaves the workspace, one that `Glob::new` refuses, or, once all
/// are accepted, the failure to build their set.
pub open spec fn exclusions_error(patterns: Seq<Seq<char>>, k: int) -> Option<Seq<char>>
    decreases patterns.len() - k,
{
    if k < 0 || k >= patterns.len() {
        glob_set_error(patterns)
    } else if !relative_pattern(patterns[k]) {
        Some("exclusion must be workspace-relative: "@ + patterns[k])
    } else if glob_error(patterns[k]) is Some {
        glob_error(patterns[k])
    } else {
        exclusions_error(patterns, k + 1)
    }
}

/// Whether some text of a list equals `text`.
fn contains_text(texts: &Vec<String>, text: &str) -> (found: bool)
    ensures
        found == views(texts@).contains(text@),
{
    let mut i: usize = 0;
    while i < texts.len()
        invariant
            i <= texts@.len(),
            forall|j: int| 0 <= j < i ==> #[trigger] texts@[j]@ != text@,
        decreases texts@.len() - i,
    {
        if same_text(texts[i].as_str(), text) {
            proof {
                assert(views(texts@)[i as int] == text@);
            }
            return true;
        }
        i = i + 1;
    }
    proof {
        if views(texts@).contains(text@) {
            let j = choose|j: int| 0 <= j < views(texts@).len() && views(texts@)[j] == text@;
            assert(texts@[j]@ == text@);
        }
    }
    false
}

/// Whether an exclusion pattern stays inside the workspace.
pub fn is_relative_pattern(pattern: &str) -> (relative: bool)
    ensures
        relative == relative_pattern(pattern@),
{
    let absolute = pattern.unicode_len() > 0 && pattern.get_char(0) == '/';
    if absolute {
        return false;
    }
    let parts = split_text(pattern, '/');
    !contains_text(&parts, "..")
}

/// A path with each backslash written as a slash.
pub open spec fn with_slashes(path: Seq<char>) -> Seq<char> {
    joined(split_from(path, '\\', 0), "/"@)
}

/// The offset that ends the first `n` lines of `b[i..]`: the offset of the
/// `n`-th line feed from `i` on, or the end of the text.
pub open spec fn head_end(b: Seq<u8>, i: int, n: int) -> int
    decreases b.len() - i,
{
    if i < 0 || i >= b.len() {
        b.len() as int
    } else if b[i] == 10 {
        if n <= 1 {
            i
        } else {
            head_end(b, i + 1, n - 1)
        }
    } else {
        head_end(b, i + 1, n)
    }
}

/// ASCII letters turned to lower case, other bytes kept.
pub open spec fn ascii_lower(b: Seq<u8>) -> Seq<u8> {
    b.map_values(|x: u8| if 65 <= x <= 90 { (x + 32) as u8 } else { x })
}

/// How many lines from the top of a file are searched for generated-code markers.
pub const MARKER_LINES: usize = 20;

/// Whether the first [`MARKER_LINES`] lines of a source, in lower case, hold
/// one of the markers of generated code.
pub open spec fn generated_text(source: Seq<u8>) -> bool {
    let head = ascii_lower(source.take(head_end(source, 0, MARKER_LINES as int)));
    ||| crate::slices::find_first(head, encode_utf8("@generated"@)) is Some
    ||| crate::slices::find_first(head, encode_utf8("do not edit"@)) is Some
    ||| crate::slices::find_first(head, encode_utf8("automatically generated"@)) is Some
}

/// Whether a source file marks itself as generated in its first lines.
pub fn is_generated(source: &str) -> (generated: bool)
    ensures
        generated == generated_text(encode_utf8(source@)),
{
    let b = source.as_bytes();
    let ghost whole = b@;
    let mut end: usize = 0;
    let mut lines: usize = MARKER_LINES;
    while end < b.len() && !(b[end] == 10 && lines <= 1)
        invariant
            end <= b@.len(),
            b@ == whole,
            1 <= lines <= MARKER_LINES,
            head_end(whole, 0, MARKER_LINES as int) == head_end(whole, end as int, lines as int),
        decreases b@.len() - end,
    {
        if b[end] == 10 {
            lines = lines - 1;
        }
        end = end + 1;
    }
    let mut head: Vec<u8> = Vec::new();
    let mut i: usize = 0;
    while i < end
        invariant
            i <= end <= b@.len(),
            b@ == whole,
            head@ == ascii_lower(whole.take(i as int)),
        decreases end - i,
    {
        let x = b[i];
        let lower = if 65 <= x && x <= 90 {
            x + 32
        } else {
            x
        };
        head.push(lower);
        proof {
            assert(ascii_lower(whole.take(i + 1)) =~= ascii_lower(whole.take(i as int)).push(lower));
        }
        i = i + 1;
    }
    proof {
        assert(head_end(whole, 0, MARKER_LINES as int) == end);
        assert(head@.subrange(0, end as int) =~= head@);
    }
    let n = head.len();
    find_in(head.as_slice(), 0, n, "@generated".as_bytes()).is_some() || find_in(
        head.as_slice(),
        0,
        n,
        "do not edit".as_bytes(),
    ).is_some() || find_in(head.as_slice(), 0, n, "automatically generated".as_bytes()).is_some()
}

/// The files of a workspace that the lint checks.
pub struct Workspace {
    root: String,
    include_generated: bool,
    patterns: Ghost<Seq<Seq<char>>>,
    exclusions: GlobSet,
}

impl Workspace {
    #[verifier::type_invariant]
    spec fn exclusions_built(self) -> bool {
        set_patterns(self.exclusions) == self.patterns@
    }

    /// The workspace root.
    pub closed spec fn root_text(self) -> Seq<char> {
        self.root@
    }

    /// Whether generated files are checked too.
    pub closed spec fn checks_generated(self) -> bool {
        self.include_generated
    }

    /// The exclusion patterns, in the order given.
    pub closed spec fn exclusion_patterns(self) -> Seq<Seq<char>> {
        self.patterns@
    }

    /// A workspace at `root` whose files matching one of the `exclude`
    /// patterns are left unchecked; every pattern must stay inside the
    /// workspace and be a valid glob.
    pub fn new(root: String, include_generated: bool, exclude: &Vec<String>) -> (result: Result<
        Workspace,
        String,
    >)
        ensures
            match result {
                Ok(w) => exclusions_error(views(exclude@), 0) is None && w.root_text() == root@
                    && w.checks_generated() == include_generated && w.exclusion_patterns() == views(
                    exclude@,
                ),
                Err(e) => exclusions_error(views(exclude@), 0) == Some(e@),
            },
    {
        let ghost all = views(exclude@);
        let mut builder = new_builder();
        let mut k: usize = 0;
        while k < exclude.len()
            invariant
                k <= exclude@.len(),
                all == views(exclude@),
                added_patterns(builder) == all.take(k as int),
                exclusions_error(all, 0) == exclusions_error(all, k as int),
            decreases exclude@.len() - k,
        {
            let pattern = exclude[k].as_str();
            if !is_relative_pattern(pattern) {
                let mut message = String::from_str("exclusion must be workspace-relative: ");
                message.append(pattern);
                return Err(message);
            }
            match add_pattern(&mut builder, pattern) {
                Ok(()) => {},
                Err(e) => {
                    return Err(e);
                },
            }
            proof {
                assert(all.take(k + 1) =~= all.take(k as int).push(all[k as int]));
            }
            k = k + 1;
        }
        proof {
            assert(all.take(k as int) =~= all);
        }
        let exclusions = match build_set(&builder) {
            Ok(s) => s,
            Err(e) => {
                return Err(e);
            },
        };
        Ok(Workspace { root, include_generated, patterns: Ghost(all), exclusions })
    }

    /// The workspace root.
    pub fn root(&self) -> (root: &str)
        ensures
            root@ == self.root_text(),
    {
        self.root.as_str()
    }

    /// Whether the lint checks a file, given its path relative to the
    /// workspace root (`None` for a file outside it) and its source: no part
    /// of the path may be `target`, no exclusion pattern may match it, and
    /// unless generated files are checked, it must not mark itself generated.
    pub fn includes(&self, relative: Option<&str>, source: &str) -> (included: bool)
        ensures
            included == match relative {
                None => false,
                Some(r) => !split_from(with_slashes(r@), '/', 0).contains("target"@) && !set_matches(
                    self.exclusion_patterns(),
                    with_slashes(r@),
                ) && (self.checks_generated() || !generated_text(encode_utf8(source@))),
            },
    {
        proof {
            use_type_invariant(self);
        }
        let r = match relative {
            Some(r) => r,
            None => {
                return false;
            },
        };
        let pieces = split_text(r, '\\');
        let path = join(&pieces, "/");
        let parts = split_text(path.as_str(), '/');
        if contains_text(&parts, "target") {
            return false;
        }
        if set_is_match(&self.exclusions, path.as_str()) {
            return false;
        }
        self.include_generated || !is_generated(source)
    }
}

/// Where the lint reads its settings: the rule policy's fields, and the
/// workspace's file selection.
pub struct ConfigTable {
    /// Configuration schema version; must be 1.
    pub schema_version: u32,
    /// Additional checks to enable beyond default rules.
    pub enable: Vec<Rule>,
    /// Checks to disable from default rules.
    pub disable: Vec<Rule>,
    /// Whether generated files are checked too.
    pub include_generated: bool,
    /// Patterns of workspace-relative paths that are not checked.
    pub exclude: Vec<String>,
    /// Relationships and limits for statement groups.
    pub grouping: Grouping,
    /// Spacing after blocks and between guards.
    pub control_flow: ControlFlow,
    /// Block-size and tail-value policy.
    pub exits: Exits,
    /// Policy for immediate Result/Option checks.
    pub error_handling: ErrorHandling,
    /// Spacing between declaration categories.
    pub items: Items,
}

/// The rule policy that a settings table holds.
pub open spec fn policy_of(table: ConfigTable) -> Config {
    Config {
        schema_version: table.schema_version,
        enable: table.enable,
        disable: table.disable,
        grouping: table.grouping,
        control_flow: table.control_flow,
        exits: table.exits,
        error_handling: table.error_handling,
        items: table.items,
    }
}

impl Default for ConfigTable {
    /// The settings that apply where none are given: the default policy, no
    /// generated files, and nothing under `target/` or `vendor/`.
    fn default() -> (table: ConfigTable)
        ensures
            crate::config::default_policies(policy_of(table)),
            table.enable@.len() == 0,
            table.disable@.len() == 0,
            !table.include_generated,
            views(table.exclude@) == seq!["target/**"@, "vendor/**"@],
    {
        let policy = Config::default();
        let mut exclude: Vec<String> = Vec::new();
        exclude.push(String::from_str("target/**"));
        exclude.push(String::from_str("vendor/**"));
        proof {
            assert(views(exclude@) =~= seq!["target/**"@, "vendor/**"@]);
        }
        ConfigTable {
            schema_version: policy.schema_version,
            enable: policy.enable,
            disable: policy.disable,
            include_generated: false,
            exclude,
            grouping: policy.grouping,
            control_flow: policy.control_flow,
            exits: policy.exits,
            error_handling: policy.error_handling,
            items: policy.items,
        }
    }
}

impl ConfigTable {
    /// Checks the settings and makes the rule policy and the workspace of
    /// `root` from them.
    pub fn resolve(self, root: String) -> (result: Result<(Config, Workspace), String>)
        ensures
            match result {
                Ok((policy, w)) => crate::config::validation_error(policy_of(self)) is None
                    && exclusions_error(views(self.exclude@), 0) is None && policy == policy_of(self)
                    && w.root_text() == root@ && w.checks_generated() == self.include_generated
                    && w.exclusion_patterns() == views(self.exclude@),
                Err(e) => match crate::config::validation_error(policy_of(self)) {
                    Some(v) => e@ == v,
                    None => exclusions_error(views(self.exclude@), 0) == Some(e@),
                },
            },
    {
        let ghost table = self;
        let policy = Config {
            schema_version: self.schema_version,
            enable: self.enable,
            disable: self.disable,
            grouping: self.grouping,
            control_flow: self.control_flow,
            exits: self.exits,
            error_handling: self.error_handling,
            items: self.items,
        };
        match policy.validate() {
            Ok(()) => {},
            Err(e) => {
                return Err(e);
            },
        }
        let workspace = match Workspace::new(root, self.include_generated, &self.exclude) {
            Ok(w) => w,
            Err(e) => {
                return Err(e);
            },
        };
        Ok((policy, workspace))
    }
}

/// The path segments that a relative path keeps: its pieces between slashes
/// that are neither empty nor `.`.
pub open spec fn kept_segments(pieces: Seq<Seq<char>>) -> Seq<Seq<char>>
    decreases pieces.len(),
{
    if pieces.len() == 0 {
        Seq::empty()
    } else {
        kept_segments(pieces.drop_last()) + if pieces.last().len() == 0 || pieces.last() == "."@ {
            Seq::<Seq<char>>::empty()
        } else {
            seq![pieces.last()]
        }
    }
}

/// The relative path that a file name denotes inside the workspace: its kept
/// segments joined by slashes; nothing where the name is empty or absolute,
/// keeps no segment, or climbs out with `..`.
pub open spec fn safe_relative_path(name: Seq<char>) -> Option<Seq<char>> {
    let segments = kept_segments(split_from(name, '/', 0));
    if name.len() == 0 || name[0] == '/' || segments.len() == 0 || segments.contains(".."@) {
        None
    } else {
        Some(joined(segments, "/"@))
    }
}

/// The relative path inside the workspace that a file name denotes, as
/// [`safe_relative_path`] says.
pub fn safe_relative(name: &str) -> (path: Option<String>)
    ensures
        match safe_relative_path(name@) {
            Some(p) => path matches Some(q) && q@ == p,
            None => path is None,
        },
{
    let pieces = split_text(name, '/');
    let mut segments: Vec<String> = Vec::new();
    let mut climbs = false;
    let mut i: usize = 0;
    proof {
        reveal_strlit(".");
        reveal_strlit("..");
    }
    while i < pieces.len()
        invariant
            i <= pieces@.len(),
            views(segments@) == kept_segments(views(pieces@).take(i as int)),
            climbs == views(segments@).contains(".."@),
        decreases pieces@.len() - i,
    {
        proof {
            assert(views(pieces@).take(i + 1).drop_last() =~= views(pieces@).take(i as int));
            assert(views(pieces@).take(i + 1).last() == pieces@[i as int]@);
        }
        let piece = pieces[i].as_str();
        let ghost before = views(segments@);
        if !(piece.is_empty() || same_text(piece, ".")) {
            if same_text(piece, "..") {
                climbs = true;
            }
            segments.push(String::from_str(piece));
            proof {
                assert(views(segments@) =~= before.push(piece@));
                if climbs && !before.contains(".."@) {
                    assert(views(segments@)[before.len() as int] == ".."@);
                }
                if views(segments@).contains(".."@) && !before.contains(".."@) {
                    let k = choose|k: int| 0 <= k < views(segments@).len() && views(segments@)[k] == ".."@;
                    if k < before.len() {
                        assert(before[k] == ".."@);
                    }
                }
            }
        }
        proof {
            assert(views(segments@) =~= kept_segments(views(pieces@).take(i + 1)));
        }
        i = i + 1;
    }
    proof {
        assert(views(pieces@).take(i as int) =~= views(pieces@));
    }
    let absolute = name.unicode_len() > 0 && name.get_char(0) == '/';
    if name.unicode_len() == 0 || absolute || segments.len() == 0 || climbs {
        return None;
    }
    Some(join(&segments, "/"))
}


} // verus!
