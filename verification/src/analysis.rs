//! The check of one source file: its text is read against the compiler's, it
//! is parsed, the compiler's facts are attached, the spacing plan is made, and
//! the planned fix is confirmed to keep every code, comment and literal token.
use vstd::prelude::*;
use vstd::string::StringExecFns;
use vstd::utf8::encode_utf8;

use crate::baseline::{digest, sha256_hex};
use crate::config::{validation_error, Config};
use crate::edits::apply_edits;
use crate::model::SourceModel;
use crate::planner::{
    expected_findings, finding_edits, finding_views, plan, plan_failure, replans_same, total_gaps, Finding, Plan,
};
use crate::snapshot::{json_quoted, quote_json};
use crate::spans::read_source;
use crate::syntax::lower::lowered;
use crate::syntax::tree::SyntaxTree;
use crate::syntax::{
    fingerprint_from, fingerprint_view, parse_failure, parse_source, parsed_tree, token_fingerprint, SemanticIndex,
};
use crate::config::effective_rules;
use crate::model::RuleMask;
use crate::text::SourceText;

verus! {

/// The JSON array of the token pairs from `k` on, each written as a
/// two-element array of JSON strings, without separating spaces, or the first
/// failure to quote a text.
pub open spec fn pairs_json(tokens: Seq<(String, String)>, k: int) -> Result<Seq<char>, Seq<char>>
    decreases tokens.len() - k,
{
    if k < 0 || k >= tokens.len() {
        Ok(Seq::empty())
    } else {
        match json_quoted(tokens[k].0@) {
            Err(e) => Err(e),
            Ok(kind) => match json_quoted(tokens[k].1@) {
                Err(e) => Err(e),
                Ok(text) => match pairs_json(tokens, k + 1) {
                    Err(e) => Err(e),
                    Ok(rest) => Ok(
                        (if k == 0 {
                            Seq::empty()
                        } else {
                            seq![',']
                        }) + seq!['['] + kind + seq![','] + text + seq![']'] + rest,
                    ),
                },
            },
        }
    }
}

/// The token fingerprint of a file written as JSON: an array of
/// `[kind, text]` arrays.
pub open spec fn tokens_json(tokens: Seq<(String, String)>) -> Result<Seq<char>, Seq<char>> {
    match pairs_json(tokens, 0) {
        Ok(body) => Ok(seq!['['] + body + seq![']']),
        Err(e) => Err(e),
    }
}

/// Writes token pairs from `k` on as [`pairs_json`] says.
fn write_pairs(tokens: &Vec<(String, String)>, k: usize) -> (json: Result<String, String>)
    requires
        k <= tokens@.len(),
    ensures
        match pairs_json(tokens@, k as int) {
            Ok(text) => json matches Ok(j) && j@ == text,
            Err(e) => json matches Err(m) && m@ == e,
        },
    decreases tokens@.len() - k,
{
    if k >= tokens.len() {
        return Ok(String::new());
    }
    let kind = quote_json(tokens[k].0.as_str())?;
    let text = quote_json(tokens[k].1.as_str())?;
    let rest = write_pairs(tokens, k + 1)?;
    let mut json = if k == 0 {
        String::new()
    } else {
        String::from_str(",")
    };
    json.append("[");
    json.append(kind.as_str());
    json.append(",");
    json.append(text.as_str());
    json.append("]");
    json.append(rest.as_str());
    proof {
        reveal_strlit(",");
        reveal_strlit("[");
        reveal_strlit("]");
        let sep: Seq<char> = if k == 0 {
            Seq::empty()
        } else {
            seq![',']
        };
        assert(json@ =~= sep + seq!['['] + kind@ + seq![','] + text@ + seq![']'] + rest@);
    }
    Ok(json)
}

/// The SHA-256 digest of a file's token fingerprint written as JSON.
pub fn token_hash(tokens: &Vec<(String, String)>) -> (hash: Result<String, String>)
    ensures
        match tokens_json(tokens@) {
            Ok(text) => hash matches Ok(h) && h@ == sha256_hex(encode_utf8(text)),
            Err(e) => hash matches Err(m) && m@ == e,
        },
{
    let body = write_pairs(tokens, 0)?;
    let mut json = String::from_str("[");
    json.append(body.as_str());
    json.append("]");
    proof {
        reveal_strlit("[");
        reveal_strlit("]");
        assert(json@ =~= seq!['['] + body@ + seq![']']);
    }
    Ok(digest(json.as_str().as_bytes()))
}

/// The number of spacing boundaries of a model, where it fits a `usize`.
fn count_gaps(model: &SourceModel) -> (count: Option<usize>)
    ensures
        count is Some <==> total_gaps(model.lists@) <= usize::MAX,
{
    let mut total: usize = 0;
    let mut i: usize = 0;
    while i < model.lists.len()
        invariant
            i <= model.lists@.len(),
            total == total_gaps(model.lists@.take(i as int)),
        decreases model.lists@.len() - i,
    {
        proof {
            assert(model.lists@.take(i + 1).drop_last() =~= model.lists@.take(i as int));
        }
        let n = model.lists[i].gaps.len();
        if n > usize::MAX - total {
            proof {
                lemma_total_gaps_grows(model.lists@, i + 1);
            }
            return None;
        }
        total = total + n;
        i = i + 1;
    }
    proof {
        assert(model.lists@.take(i as int) =~= model.lists@);
    }
    Some(total)
}

/// Boundaries of more lists are at least those of fewer.
proof fn lemma_total_gaps_grows(lists: Seq<crate::model::UnitList>, k: int)
    requires
        0 <= k <= lists.len(),
    ensures
        total_gaps(lists.take(k)) <= total_gaps(lists),
    decreases lists.len() - k,
{
    if k < lists.len() {
        lemma_total_gaps_grows(lists, k + 1);
        assert(lists.take(k + 1).drop_last() =~= lists.take(k));
    } else {
        assert(lists.take(k) =~= lists);
    }
}

/// Whether the text on disk normalizes to the text the compiler saw.
pub open spec fn same_text_read(raw: Seq<char>, compiler_source: Seq<char>) -> bool {
    encode_utf8(compiler_source) == crate::text::normalized_bytes(encode_utf8(raw))
}

/// Whether the text on disk mixes CRLF and bare LF line endings.
pub open spec fn mixed_read(raw: Seq<char>) -> bool {
    let bytes = encode_utf8(raw);
    crate::text::has_crlf_from(bytes, crate::text::content_start(bytes)) && crate::text::has_bare_lf_from(
        bytes,
        crate::text::content_start(bytes),
    )
}

/// Whether `model` is the model of `source` with the compiler's facts: the
/// lowering, with `semantics`, of the tree that parsing `source` describes.
pub open spec fn checked_model(
    source: Seq<char>,
    edition: Seq<char>,
    semantics: &SemanticIndex,
    tree: SyntaxTree,
    model: SourceModel,
) -> bool {
    parsed_tree(source, edition, tree) && lowered(tree.elements@, encode_utf8(source), Some(semantics), model)
}

/// Whether `candidate` is the text that applying the edits of findings that
/// planning `model` of `bytes` gives, in source order, makes.
pub open spec fn fix_candidate(config: Config, bytes: Seq<u8>, model: SourceModel, candidate: Seq<u8>) -> bool {
    exists|global_rules: RuleMask, findings: Seq<Finding>|
        #![trigger expected_findings(config, global_rules, bytes, model), finding_edits(findings)]
        global_rules@ == effective_rules(config) && finding_views(findings).to_multiset() == expected_findings(
            config,
            global_rules,
            bytes,
            model,
        ).to_multiset() && crate::edits::edits_fault(bytes, finding_edits(findings)) is None && candidate
            == crate::edits::splice(bytes, crate::edits::source_order(finding_edits(findings)), 0)
}

/// Why checking a file fails once its text is read, parsed and its configuration
/// is valid: the model has more boundaries than a count holds; planning the model
/// fails; the fixed text is beyond the parser's offsets, does not parse, or parses
/// to other code, comment or literal tokens; or the tokens cannot be written as JSON.
pub open spec fn check_failure(
    config: Config,
    source: Seq<char>,
    edition: Seq<char>,
    semantics: &SemanticIndex,
    message: Seq<char>,
) -> bool {
    let bytes = encode_utf8(source);
    exists|tree: SyntaxTree, model: SourceModel|
        #![trigger checked_model(source, edition, semantics, tree, model)]
        checked_model(source, edition, semantics, tree, model) && {
            ||| (message == "too many spacing boundaries in one file"@ && total_gaps(model.lists@) > usize::MAX)
            ||| (total_gaps(model.lists@) <= usize::MAX && plan_failure(config, bytes, model, message))
            ||| (message == "candidate exceeds the parser's offset range"@ && exists|candidate: Seq<u8>|
                fix_candidate(config, bytes, model, candidate) && candidate.len() > MAX_SOURCE_BYTES)
            ||| exists|candidate: Seq<char>|
                fix_candidate(config, bytes, model, encode_utf8(candidate)) && parse_failure(
                    candidate,
                    edition,
                    message,
                )
            ||| (message == "internal error: a proposed fix changed a code/comment/literal token"@ && exists|
                candidate: Seq<char>,
                fixed: SyntaxTree,
                original: SyntaxTree,
            |
                fix_candidate(config, bytes, model, encode_utf8(candidate)) && parsed_tree(candidate, edition, fixed)
                    && parsed_tree(source, edition, original) && fingerprint_from(fixed.elements@, fixed.text@, 0)
                    != fingerprint_from(original.elements@, original.text@, 0))
            ||| exists|tokens: Seq<(String, String)>, original: SyntaxTree|
                parsed_tree(source, edition, original) && fingerprint_view(tokens) == fingerprint_from(
                    original.elements@,
                    original.text@,
                    0,
                ) && tokens_json(tokens) == Err::<Seq<char>, Seq<char>>(message)
        }
}

/// Token lists with other texts have other kind names or other UTF-8 texts.
proof fn lemma_fingerprints_differ(a: Seq<(String, String)>, b: Seq<(String, String)>)
    requires
        crate::runs::pair_views(a) != crate::runs::pair_views(b),
    ensures
        fingerprint_view(a) != fingerprint_view(b),
{
    if fingerprint_view(a) == fingerprint_view(b) {
        assert(a.len() == fingerprint_view(a).len());
        assert(b.len() == fingerprint_view(b).len());
        assert forall|k: int| 0 <= k < a.len() implies (#[trigger] crate::runs::pair_views(a)[k])
            == crate::runs::pair_views(b)[k] by {
            assert(fingerprint_view(a)[k] == (a[k].0@, encode_utf8(a[k].1@)));
            assert(fingerprint_view(b)[k] == (b[k].0@, encode_utf8(b[k].1@)));
            vstd::utf8::encode_utf8_decode_utf8(a[k].1@);
            vstd::utf8::encode_utf8_decode_utf8(b[k].1@);
            assert(a[k].1@ == b[k].1@);
        }
        assert(crate::runs::pair_views(a) =~= crate::runs::pair_views(b));
    }
}

/// What the check of one file yields.
pub struct FileAnalysis {
    /// The file's text, read against the compiler's.
    pub text: SourceText,
    /// The spacing findings, with their edits.
    pub plan: Plan,
    /// The file's code, comment and literal tokens: kind and text of each.
    pub tokens: Vec<(String, String)>,
    /// The SHA-256 digest of the tokens written as JSON.
    pub token_hash: String,
}

/// The largest source, in bytes, that the parser's offsets cover.
pub const MAX_SOURCE_BYTES: usize = 0xffff_ffff;

/// Checks one file: `raw` is its text on disk and `compiler_source` the text
/// the compiler saw. The text is read against the compiler's, parsed for the
/// edition, given the compiler's facts, and planned; the planned fix is
/// applied and must keep every code, comment and literal token.
#[verifier::spinoff_prover]
#[verifier::rlimit(100)]
pub fn analyze_file(
    config: &Config,
    raw: String,
    compiler_source: &str,
    edition: &str,
    semantics: &SemanticIndex,
) -> (result: Result<FileAnalysis, String>)
    requires
        encode_utf8(raw@).len() < usize::MAX,
        encode_utf8(compiler_source@).len() <= MAX_SOURCE_BYTES,
    ensures
        result matches Ok(a) ==> {
            &&& a.text.raw_text() == raw@
            &&& a.text.normalized_text() == compiler_source@
            &&& !a.text.mixed()
            &&& validation_error(*config) is None
            &&& crate::edits::edits_fault(
                encode_utf8(compiler_source@),
                crate::planner::finding_edits(a.plan.findings@),
            ) is None
            &&& crate::planner::findings_sorted(a.plan.findings@)
            &&& tokens_json(a.tokens@) matches Ok(json) && a.token_hash@ == sha256_hex(encode_utf8(json))
            &&& exists|tree: SyntaxTree, model: SourceModel, global_rules: RuleMask|
                #![trigger checked_model(compiler_source@, edition@, semantics, tree, model), expected_findings(*config, global_rules, encode_utf8(compiler_source@), model)]
                checked_model(compiler_source@, edition@, semantics, tree, model) && global_rules@ == effective_rules(
                    *config,
                ) && finding_views(a.plan.findings@).to_multiset() == expected_findings(
                    *config,
                    global_rules,
                    encode_utf8(compiler_source@),
                    model,
                ).to_multiset() && (forall|k: int|
                    0 <= k < model.lists@.len() ==> replans_same(
                        *config,
                        global_rules,
                        encode_utf8(compiler_source@),
                        #[trigger] model.lists@[k],
                    ))
            &&& exists|tree: SyntaxTree|
                #![trigger parsed_tree(compiler_source@, edition@, tree)]
                parsed_tree(compiler_source@, edition@, tree) && fingerprint_view(a.tokens@) == fingerprint_from(
                    tree.elements@,
                    tree.text@,
                    0,
                )
        },
        !same_text_read(raw@, compiler_source@) ==> (result matches Err(m) && m@
            == "on-disk source differs from rustc's source snapshot"@),
        same_text_read(raw@, compiler_source@) && mixed_read(raw@) ==> (result matches Err(m) && m@
            == "mixed newline styles: run the project's formatter first"@),
        same_text_read(raw@, compiler_source@) && !mixed_read(raw@) && crate::syntax::edition_index(edition@)
            is None ==> (result matches Err(m) && m@ == "unsupported Rust edition: "@ + edition@),
        same_text_read(raw@, compiler_source@) && !mixed_read(raw@) && crate::syntax::edition_index(edition@)
            is Some && crate::syntax::tree::parsed_events(
            compiler_source@,
            crate::syntax::edition_index(edition@)->0,
        ) is Err ==> (result matches Err(m) && m@ == "source parser rejected this file: "@
            + crate::syntax::tree::parsed_events(
            compiler_source@,
            crate::syntax::edition_index(edition@)->0,
        )->Err_0),
        same_text_read(raw@, compiler_source@) && !mixed_read(raw@) && validation_error(*config) is Some
            ==> (result matches Err(m) && (m@ == validation_error(*config)->0 || crate::syntax::parse_failure(
            compiler_source@,
            edition@,
            m@,
        ))),
        same_text_read(raw@, compiler_source@) && !mixed_read(raw@) && validation_error(*config) is None
            ==> (result matches Err(m) ==> (parse_failure(compiler_source@, edition@, m@) || check_failure(
            *config,
            compiler_source@,
            edition@,
            semantics,
            m@,
        ))),
{
    let text = match read_source(raw, compiler_source) {
        Ok(t) => t,
        Err(e) => {
            return Err(e);
        },
    };
    let mut parsed = match parse_source(text.normalized_str(), edition) {
        Ok(p) => p,
        Err(e) => {
            return Err(e);
        },
    };
    let ghost tree = parsed.tree;
    parsed.attach(text.normalized_str(), semantics);
    let ghost bytes = encode_utf8(compiler_source@);
    let ghost model = parsed.model;
    proof {
        assert(checked_model(compiler_source@, edition@, semantics, parsed.tree, parsed.model));
    }
    match config.validate() {
        Ok(()) => {},
        Err(e) => {
            return Err(e);
        },
    }
    if count_gaps(&parsed.model).is_none() {
        proof {
            assert(check_failure(*config, compiler_source@, edition@, semantics, "too many spacing boundaries in one file"@));
        }
        return Err(String::from_str("too many spacing boundaries in one file"));
    }
    let planned = match plan(config, text.normalized_str(), &parsed.model) {
        Ok(p) => p,
        Err(e) => {
            proof {
                assert(check_failure(*config, compiler_source@, edition@, semantics, e@));
            }
            return Err(e);
        },
    };
    let edits = planned.edits();
    let candidate = match apply_edits(text.normalized_str(), edits.as_slice()) {
        Ok(c) => c,
        Err(e) => {
            return Err(e);
        },
    };
    let ghost rules = choose|global_rules: RuleMask|
        global_rules@ == effective_rules(*config) && finding_views(planned.findings@).to_multiset()
            == expected_findings(*config, global_rules, bytes, model).to_multiset() && forall|k: int|
            0 <= k < model.lists@.len() ==> replans_same(*config, global_rules, bytes, #[trigger] model.lists@[k]);
    proof {
        assert(crate::edits::edits_fault(bytes, finding_edits(planned.findings@)) is None);
        assert(expected_findings(*config, rules, bytes, model) == expected_findings(*config, rules, bytes, model));
        assert(finding_edits(planned.findings@) == finding_edits(planned.findings@));
        assert(fix_candidate(*config, bytes, model, encode_utf8(candidate@)));
    }
    if candidate.as_str().as_bytes().len() > MAX_SOURCE_BYTES {
        proof {
            assert(check_failure(
                *config,
                compiler_source@,
                edition@,
                semantics,
                "candidate exceeds the parser's offset range"@,
            ));
        }
        return Err(String::from_str("candidate exceeds the parser's offset range"));
    }
    let tokens = match token_fingerprint(text.normalized_str(), edition) {
        Ok(t) => t,
        Err(e) => {
            return Err(e);
        },
    };
    let changed = match token_fingerprint(candidate.as_str(), edition) {
        Ok(t) => t,
        Err(e) => {
            proof {
                assert(check_failure(*config, compiler_source@, edition@, semantics, e@));
            }
            return Err(e);
        },
    };
    if !crate::runs::same_pairs(&tokens, &changed) {
        proof {
            lemma_fingerprints_differ(tokens@, changed@);
            let original = choose|t: SyntaxTree|
                parsed_tree(compiler_source@, edition@, t) && fingerprint_view(tokens@) == fingerprint_from(
                    t.elements@,
                    t.text@,
                    0,
                );
            let fixed = choose|t: SyntaxTree|
                parsed_tree(candidate@, edition@, t) && fingerprint_view(changed@) == fingerprint_from(
                    t.elements@,
                    t.text@,
                    0,
                );
            assert(parsed_tree(candidate@, edition@, fixed) && parsed_tree(compiler_source@, edition@, original));
            assert(check_failure(
                *config,
                compiler_source@,
                edition@,
                semantics,
                "internal error: a proposed fix changed a code/comment/literal token"@,
            ));
        }
        return Err(String::from_str("internal error: a proposed fix changed a code/comment/literal token"));
    }
    let token_hash = match token_hash(&tokens) {
        Ok(h) => h,
        Err(e) => {
            proof {
                let original = choose|t: SyntaxTree|
                    parsed_tree(compiler_source@, edition@, t) && fingerprint_view(tokens@) == fingerprint_from(
                        t.elements@,
                        t.text@,
                        0,
                    );
                assert(parsed_tree(compiler_source@, edition@, original));
                assert(check_failure(*config, compiler_source@, edition@, semantics, e@));
            }
            return Err(e);
        },
    };
    proof {
        assert(checked_model(compiler_source@, edition@, semantics, parsed.tree, parsed.model));
        assert(rules@ == effective_rules(*config));
        assert(finding_views(planned.findings@).to_multiset() == expected_findings(
            *config,
            rules,
            encode_utf8(compiler_source@),
            parsed.model,
        ).to_multiset());
        assert(forall|k: int|
            0 <= k < parsed.model.lists@.len() ==> replans_same(*config, rules, bytes, #[trigger] parsed.model.lists@[k]));
        let original = choose|t: SyntaxTree|
            parsed_tree(compiler_source@, edition@, t) && fingerprint_view(tokens@) == fingerprint_from(
                t.elements@,
                t.text@,
                0,
            );
        assert(parsed_tree(compiler_source@, edition@, original));
        assert(exists|tree: SyntaxTree|
            #![trigger parsed_tree(compiler_source@, edition@, tree)]
            parsed_tree(compiler_source@, edition@, tree) && fingerprint_view(tokens@) == fingerprint_from(
                tree.elements@,
                tree.text@,
                0,
            ));
        assert(exists|tree: SyntaxTree, model: SourceModel, global_rules: RuleMask|
            #![trigger checked_model(compiler_source@, edition@, semantics, tree, model), expected_findings(*config, global_rules, encode_utf8(compiler_source@), model)]
            checked_model(compiler_source@, edition@, semantics, tree, model) && global_rules@ == effective_rules(
                *config,
            ) && finding_views(planned.findings@).to_multiset() == expected_findings(
                *config,
                global_rules,
                encode_utf8(compiler_source@),
                model,
            ).to_multiset() && (forall|k: int|
                0 <= k < model.lists@.len() ==> replans_same(*config, global_rules, bytes, #[trigger] model.lists@[k])));
    }
    Ok(FileAnalysis { text, plan: planned, tokens, token_hash })
}

} // verus!
