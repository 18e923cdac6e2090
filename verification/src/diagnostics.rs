//! The compiler's JSON diagnostics, held as plain values: which of them are
//! findings of the spacing lints, which are foreign compiler errors, and
//! which machine-applicable suggestion a finding carries.
use vstd::prelude::*;
use vstd::string::StringExecFns;

use crate::json::{
    as_text, as_unsigned, field, get, json_of, lemma_elements_decrease, lemma_field_decreases, parse_json, text_at,
    text_view, unsigned_at, JsonValue,
};
use crate::runs::{diagnostic_error, diagnostic_error_message};
use crate::snapshot::{is_rust_file, rust_file};
use crate::suggestions::{accept_suggestion, spacing_rule, spacing_rule_code, whitespace_suggestion, FileEdit};
use crate::syntax::tree::same_text;

verus! {

/// The largest Cargo JSON output that a lint run may produce: 64 MiB.
pub const MAX_JSON_BYTES: u64 = 67108864;

/// Refuses Cargo JSON output larger than [`MAX_JSON_BYTES`] bytes.
pub fn check_json_size(len: u64) -> (result: Result<(), String>)
    ensures
        result is Ok <==> len <= MAX_JSON_BYTES,
        result matches Err(message) ==> message@ == "Cargo JSON output exceeds the verification limit"@,
{
    if len > MAX_JSON_BYTES {
        return Err(String::from_str("Cargo JSON output exceeds the verification limit"));
    }
    Ok(())
}

/// The replacement that a span suggests.
pub enum Replacement {
    /// No replacement, or `null`.
    Missing,
    /// A replacement text.
    Text(String),
    /// A replacement that is neither text nor `null`.
    NotText,
}

/// One span of a diagnostic, as far as the lint reads it.
pub struct DiagnosticSpan {
    /// The file name, where it is text.
    pub file_name: Option<String>,
    /// Whether the span is marked primary.
    pub primary: bool,
    /// The first line, where it is a non-negative integer.
    pub line_start: Option<u64>,
    /// The first byte, where it is a non-negative integer.
    pub byte_start: Option<u64>,
    /// The end byte, where it is a non-negative integer.
    pub byte_end: Option<u64>,
    /// The suggested replacement.
    pub replacement: Replacement,
    /// Whether the suggestion's applicability is `MachineApplicable`.
    pub machine_applicable: bool,
}

/// A compiler diagnostic, as far as the lint reads it.
pub struct Diagnostic {
    /// The lint or error code, where it is text.
    pub code: Option<String>,
    /// The level, where it is text.
    pub level: Option<String>,
    /// The message, where it is text.
    pub message: Option<String>,
    /// The spans, in order.
    pub spans: Vec<DiagnosticSpan>,
    /// The child diagnostics, in order.
    pub children: Vec<Diagnostic>,
}

/// One line of Cargo's JSON output that parsed as a JSON value.
pub struct CompilerEvent {
    /// The `reason` field, where it is text.
    pub reason: Option<String>,
    /// The `message` field read as a diagnostic, where it is an object.
    pub message: Option<Diagnostic>,
    /// The `$message_type` field, where it is text.
    pub message_type: Option<String>,
    /// The event itself read as a diagnostic.
    pub body: Diagnostic,
}

/// Whether `s` is the span that the JSON value `v` describes: its file name
/// and applicability as text, whether it is marked primary, its line and bytes
/// as unsigned integers, and its suggested replacement.
pub open spec fn reads_span(v: JsonValue, s: DiagnosticSpan) -> bool {
    &&& text_view(s.file_name) == as_text(field(v, "file_name"@))
    &&& s.primary == (field(v, "is_primary"@) == Some(JsonValue::Bool(true)))
    &&& s.line_start == as_unsigned(field(v, "line_start"@))
    &&& s.byte_start == as_unsigned(field(v, "byte_start"@))
    &&& s.byte_end == as_unsigned(field(v, "byte_end"@))
    &&& match field(v, "suggested_replacement"@) {
        None => s.replacement is Missing,
        Some(JsonValue::Null) => s.replacement is Missing,
        Some(JsonValue::Text(t)) => s.replacement matches Replacement::Text(r) && r@ == t@,
        Some(_) => s.replacement is NotText,
    }
    &&& s.machine_applicable == (as_text(field(v, "suggestion_applicability"@)) == Some(
        "MachineApplicable"@,
    ))
}

/// Whether `d` is the diagnostic that the JSON value `v` describes: its code
/// (the `code` field of its `code` object), level and message as text, and its
/// spans and children read from arrays, none where they are missing or no array.
pub open spec fn reads_diagnostic(v: JsonValue, d: Diagnostic) -> bool
    decreases v,
{
    &&& text_view(d.code) == as_text(
        match field(v, "code"@) {
            Some(c) => field(c, "code"@),
            None => None,
        },
    )
    &&& text_view(d.level) == as_text(field(v, "level"@))
    &&& text_view(d.message) == as_text(field(v, "message"@))
    &&& match field(v, "spans"@) {
        Some(JsonValue::Array(items)) => d.spans@.len() == items@.len() && forall|i: int|
            0 <= i < items@.len() ==> reads_span(#[trigger] items@[i], d.spans@[i]),
        _ => d.spans@.len() == 0,
    }
    &&& match field(v, "children"@) {
        Some(JsonValue::Array(items)) => {
            proof {
                lemma_field_decreases(v, "children"@);
                lemma_elements_decrease(v, items);
            }
            d.children@.len() == items@.len() && forall|i: int|
                0 <= i < items@.len() ==> reads_diagnostic(#[trigger] items@[i], d.children@[i])
        },
        _ => d.children@.len() == 0,
    }
}

/// Whether `e` is the event that the JSON value `v` describes: its reason and
/// message type as text, its message read as a diagnostic where it is an
/// object, and the value itself read as a diagnostic.
pub open spec fn reads_event(v: JsonValue, e: CompilerEvent) -> bool {
    &&& text_view(e.reason) == as_text(field(v, "reason"@))
    &&& match field(v, "message"@) {
        Some(m) => if m is Object {
            e.message matches Some(d) && reads_diagnostic(m, d)
        } else {
            e.message is None
        },
        None => e.message is None,
    }
    &&& text_view(e.message_type) == as_text(field(v, "$message_type"@))
    &&& reads_diagnostic(v, e.body)
}

/// Reads a span from its JSON value.
pub fn span_of(v: &JsonValue) -> (s: DiagnosticSpan)
    ensures
        reads_span(*v, s),
{
    let replacement = match get(v, "suggested_replacement") {
        None => Replacement::Missing,
        Some(JsonValue::Null) => Replacement::Missing,
        Some(JsonValue::Text(t)) => Replacement::Text(String::from_str(t.as_str())),
        Some(_) => Replacement::NotText,
    };
    let primary = match get(v, "is_primary") {
        Some(JsonValue::Bool(b)) => *b,
        _ => false,
    };
    let applicability = text_at(get(v, "suggestion_applicability"));
    let machine_applicable = match &applicability {
        Some(a) => same_text(a.as_str(), "MachineApplicable"),
        None => false,
    };
    proof {
        reveal_strlit("MachineApplicable");
    }
    DiagnosticSpan {
        file_name: text_at(get(v, "file_name")),
        primary,
        line_start: unsigned_at(get(v, "line_start")),
        byte_start: unsigned_at(get(v, "byte_start")),
        byte_end: unsigned_at(get(v, "byte_end")),
        replacement,
        machine_applicable,
    }
}

/// Reads a diagnostic from its JSON value.
pub fn diagnostic_of(v: &JsonValue) -> (d: Diagnostic)
    ensures
        reads_diagnostic(*v, d),
    decreases *v,
{
    let code = match get(v, "code") {
        Some(c) => text_at(get(c, "code")),
        None => None,
    };
    let mut spans: Vec<DiagnosticSpan> = Vec::new();
    match get(v, "spans") {
        Some(JsonValue::Array(items)) => {
            let mut i: usize = 0;
            while i < items.len()
                invariant
                    i <= items@.len(),
                    spans@.len() == i,
                    forall|m: int| 0 <= m < i ==> reads_span(#[trigger] items@[m], spans@[m]),
                decreases items@.len() - i,
            {
                spans.push(span_of(&items[i]));
                i = i + 1;
            }
        },
        _ => {},
    }
    let mut children: Vec<Diagnostic> = Vec::new();
    match get(v, "children") {
        Some(JsonValue::Array(items)) => {
            proof {
                lemma_field_decreases(*v, "children"@);
                lemma_elements_decrease(*v, *items);
            }
            let mut i: usize = 0;
            while i < items.len()
                invariant
                    i <= items@.len(),
                    children@.len() == i,
                    forall|m: int| 0 <= m < items@.len() ==> decreases_to!(*v => #[trigger] items@[m]),
                    forall|m: int| 0 <= m < i ==> reads_diagnostic(#[trigger] items@[m], children@[m]),
                decreases items@.len() - i,
            {
                children.push(diagnostic_of(&items[i]));
                i = i + 1;
            }
        },
        _ => {},
    }
    Diagnostic {
        code,
        level: text_at(get(v, "level")),
        message: text_at(get(v, "message")),
        spans,
        children,
    }
}

/// Reads a compiler event from its JSON value.
pub fn compiler_event(v: &JsonValue) -> (e: CompilerEvent)
    ensures
        reads_event(*v, e),
{
    let message = match get(v, "message") {
        Some(m) => match m {
            JsonValue::Object(_) => Some(diagnostic_of(m)),
            _ => None,
        },
        None => None,
    };
    CompilerEvent {
        reason: text_at(get(v, "reason")),
        message,
        message_type: text_at(get(v, "$message_type")),
        body: diagnostic_of(v),
    }
}

/// Parses one line of Cargo's JSON output and reads it as a compiler event;
/// nothing where the line is no JSON.
pub fn read_event(line: &str) -> (event: Option<CompilerEvent>)
    ensures
        match json_of(line@) {
            Ok(v) => event matches Some(e) && reads_event(v, e),
            Err(_) => event is None,
        },
{
    match parse_json(line) {
        Ok(v) => Some(compiler_event(&v)),
        Err(_) => None,
    }
}

/// The diagnostic that an event carries: the message of a compiler message,
/// or the event itself when it is a bare diagnostic.
pub open spec fn carried(event: CompilerEvent) -> Option<Diagnostic> {
    if event.reason matches Some(r) && r@ == "compiler-message"@ && event.message is Some {
        event.message
    } else if event.message_type matches Some(t) && t@ == "diagnostic"@ {
        Some(event.body)
    } else {
        None
    }
}

/// The diagnostic that an event carries, as [`carried`] says.
pub fn event_diagnostic(event: &CompilerEvent) -> (diagnostic: Option<&Diagnostic>)
    ensures
        match diagnostic {
            Some(d) => carried(*event) == Some(*d),
            None => carried(*event) is None,
        },
{
    let compiler_message = match &event.reason {
        Some(r) => same_text(r.as_str(), "compiler-message"),
        None => false,
    };
    if compiler_message {
        match &event.message {
            Some(m) => {
                return Some(m);
            },
            None => {},
        }
    }
    let bare = match &event.message_type {
        Some(t) => same_text(t.as_str(), "diagnostic"),
        None => false,
    };
    if bare {
        Some(&event.body)
    } else {
        None
    }
}

/// Whether a span carries a machine-applicable suggestion.
pub open spec fn proposes(span: DiagnosticSpan) -> bool {
    !(span.replacement is Missing) && span.machine_applicable
}

/// The spans of `spans[i..]` that carry machine-applicable suggestions.
pub open spec fn own_proposals(spans: Seq<DiagnosticSpan>, i: int) -> Seq<DiagnosticSpan>
    decreases spans.len() - i,
{
    if 0 <= i < spans.len() {
        if proposes(spans[i]) {
            seq![spans[i]] + own_proposals(spans, i + 1)
        } else {
            own_proposals(spans, i + 1)
        }
    } else {
        Seq::empty()
    }
}

/// The machine-applicable suggestions of `diagnostics[i..]` and their
/// children, depth first: each diagnostic's own spans, then its children's.
pub open spec fn proposals_from(diagnostics: Seq<Diagnostic>, i: int) -> Seq<DiagnosticSpan>
    decreases diagnostics, diagnostics.len() - i,
{
    if 0 <= i < diagnostics.len() {
        proof {
            assert(decreases_to!(diagnostics => diagnostics[i]));
            assert(decreases_to!(diagnostics[i] => diagnostics[i].children));
        }
        own_proposals(diagnostics[i].spans@, 0) + proposals_from(diagnostics[i].children@, 0)
            + proposals_from(diagnostics, i + 1)
    } else {
        Seq::empty()
    }
}

/// The machine-applicable suggestions of a diagnostic and its children.
pub open spec fn proposals(diagnostic: Diagnostic) -> Seq<DiagnosticSpan> {
    proposals_from(seq![diagnostic], 0)
}

/// How many of the proposals there are, counting no further than two, and the first.
pub open spec fn capped(found: Seq<DiagnosticSpan>) -> (nat, Option<DiagnosticSpan>) {
    (
        if found.len() < 2 {
            found.len()
        } else {
            2
        },
        if found.len() > 0 {
            Some(found[0])
        } else {
            None
        },
    )
}

/// Adds the proposals of a sequence to a tally of earlier ones.
pub open spec fn add_capped(
    earlier: (nat, Option<DiagnosticSpan>),
    found: Seq<DiagnosticSpan>,
) -> (nat, Option<DiagnosticSpan>) {
    (
        if earlier.0 + found.len() < 2 {
            (earlier.0 + found.len()) as nat
        } else {
            2
        },
        if earlier.1 is Some {
            earlier.1
        } else if found.len() > 0 {
            Some(found[0])
        } else {
            None
        },
    )
}

/// The tally of proposals is that of their parts, added in order.
proof fn lemma_capped_concat(a: Seq<DiagnosticSpan>, b: Seq<DiagnosticSpan>)
    ensures
        capped(a + b) == add_capped(capped(a), b),
{
    if a.len() > 0 {
        assert((a + b)[0] == a[0]);
    } else {
        assert(a + b =~= b);
    }
}

/// Tallies the proposals of `spans`, on top of earlier ones.
fn tally_spans<'a>(spans: &'a Vec<DiagnosticSpan>, count: usize, first: Option<&'a DiagnosticSpan>) -> (result: (
    usize,
    Option<&'a DiagnosticSpan>,
))
    requires
        count <= 2,
        first is Some ==> count > 0,
    ensures
        result.0 <= 2,
        result.1 is Some ==> result.0 > 0,
        (result.0 as nat, match result.1 {
            Some(s) => Some(*s),
            None => None,
        }) == add_capped(
            (count as nat, match first {
                Some(s) => Some(*s),
                None => None,
            }),
            own_proposals(spans@, 0),
        ),
{
    let mut count = count;
    let mut first = first;
    let ghost start = (count as nat, match first {
        Some(s) => Some(*s),
        None => None,
    });
    let mut i: usize = 0;
    while i < spans.len()
        invariant
            i <= spans@.len(),
            count <= 2,
            first is Some ==> count > 0,
            add_capped(start, own_proposals(spans@, 0)) == add_capped(
                (count as nat, match first {
                    Some(s) => Some(*s),
                    None => None,
                }),
                own_proposals(spans@, i as int),
            ),
        decreases spans@.len() - i,
    {
        let span = &spans[i];
        let offers = match span.replacement {
            Replacement::Missing => false,
            _ => span.machine_applicable,
        };
        if offers {
            if count < 2 {
                count = count + 1;
            }
            if first.is_none() {
                first = Some(span);
            }
        }
        i = i + 1;
    }
    (count, first)
}

/// Tallies the proposals of `diagnostics` and their children, on top of earlier ones.
fn tally_forest<'a>(diagnostics: &'a Vec<Diagnostic>, count: usize, first: Option<&'a DiagnosticSpan>) -> (result: (
    usize,
    Option<&'a DiagnosticSpan>,
))
    requires
        count <= 2,
        first is Some ==> count > 0,
    ensures
        result.0 <= 2,
        result.1 is Some ==> result.0 > 0,
        (result.0 as nat, match result.1 {
            Some(s) => Some(*s),
            None => None,
        }) == add_capped(
            (count as nat, match first {
                Some(s) => Some(*s),
                None => None,
            }),
            proposals_from(diagnostics@, 0),
        ),
    decreases diagnostics@,
{
    let mut count = count;
    let mut first = first;
    let ghost start = (count as nat, match first {
        Some(s) => Some(*s),
        None => None,
    });
    let mut i: usize = 0;
    while i < diagnostics.len()
        invariant
            i <= diagnostics@.len(),
            count <= 2,
            first is Some ==> count > 0,
            add_capped(start, proposals_from(diagnostics@, 0)) == add_capped(
                (count as nat, match first {
                    Some(s) => Some(*s),
                    None => None,
                }),
                proposals_from(diagnostics@, i as int),
            ),
        decreases diagnostics@.len() - i,
    {
        let d = &diagnostics[i];
        proof {
            assert(decreases_to!(diagnostics@ => diagnostics@[i as int]));
            assert(decreases_to!(diagnostics@[i as int] => diagnostics@[i as int].children));
            assert(decreases_to!(diagnostics@[i as int].children => diagnostics@[i as int].children@));
        }
        let (c1, f1) = tally_spans(&d.spans, count, first);
        let (c2, f2) = tally_forest(&d.children, c1, f1);
        proof {
            let own = own_proposals(d.spans@, 0);
            let kids = proposals_from(d.children@, 0);
            let rest = proposals_from(diagnostics@, i + 1);
            assert(proposals_from(diagnostics@, i as int) == own + kids + rest);
            lemma_add_capped_concat((count as nat, match first {
                Some(s) => Some(*s),
                None => None,
            }), own, kids);
            lemma_add_capped_concat((count as nat, match first {
                Some(s) => Some(*s),
                None => None,
            }), own + kids, rest);
        }
        count = c2;
        first = f2;
        i = i + 1;
    }
    (count, first)
}

/// Adding two parts in turn adds their concatenation.
proof fn lemma_add_capped_concat(
    earlier: (nat, Option<DiagnosticSpan>),
    a: Seq<DiagnosticSpan>,
    b: Seq<DiagnosticSpan>,
)
    requires
        earlier.0 <= 2,
    ensures
        add_capped(add_capped(earlier, a), b) == add_capped(earlier, a + b),
{
    if a.len() > 0 {
        assert((a + b)[0] == a[0]);
    } else {
        assert(a + b =~= b);
    }
}

/// How a diagnostic bears on a lint run.
pub enum Reading<'a> {
    /// A diagnostic of another kind that is no error.
    Ignored,
    /// A foreign compiler error, with its message.
    CompilerError(String),
    /// A finding of one of the spacing lints.
    Finding {
        /// The lint's code.
        rule: String,
        /// The diagnostic's message, or nothing where it has none.
        message: String,
        /// The first primary span.
        primary: Option<&'a DiagnosticSpan>,
        /// The suggestion to apply, when the finding has exactly one.
        proposal: Option<&'a DiagnosticSpan>,
    },
}

/// The first primary span of `spans[i..]`.
pub open spec fn primary_from(spans: Seq<DiagnosticSpan>, i: int) -> Option<DiagnosticSpan>
    decreases spans.len() - i,
{
    if 0 <= i < spans.len() {
        if spans[i].primary {
            Some(spans[i])
        } else {
            primary_from(spans, i + 1)
        }
    } else {
        None
    }
}

/// The code of a diagnostic, or nothing.
pub open spec fn code_of(diagnostic: Diagnostic) -> Seq<char> {
    match diagnostic.code {
        Some(c) => c@,
        None => Seq::empty(),
    }
}

/// The optional text of an optional string.
pub open spec fn text_of(text: Option<String>) -> Option<Seq<char>> {
    match text {
        Some(t) => Some(t@),
        None => None,
    }
}

/// Reads a diagnostic: a foreign one counts as an error when
/// [`diagnostic_error`] says so; a spacing lint's one is a finding, which
/// names its first primary span and, when it has exactly one
/// machine-applicable suggestion, that suggestion.
pub fn read_diagnostic(diagnostic: &Diagnostic) -> (reading: Reading<'_>)
    ensures
        !spacing_rule_code(code_of(*diagnostic)) ==> match reading {
            Reading::CompilerError(e) => diagnostic_error(text_of(diagnostic.level), text_of(diagnostic.message))
                == Some(e@),
            Reading::Ignored => diagnostic_error(text_of(diagnostic.level), text_of(diagnostic.message)) is None,
            _ => false,
        },
        spacing_rule_code(code_of(*diagnostic)) ==> match reading {
            Reading::Finding { rule, message, primary, proposal } => {
                &&& rule@ == code_of(*diagnostic)
                &&& message@ == match diagnostic.message {
                    Some(m) => m@,
                    None => Seq::empty(),
                }
                &&& match primary {
                    Some(p) => primary_from(diagnostic.spans@, 0) == Some(*p),
                    None => primary_from(diagnostic.spans@, 0) is None,
                }
                &&& match proposal {
                    Some(p) => proposals(*diagnostic).len() == 1 && proposals(*diagnostic)[0] == *p,
                    None => proposals(*diagnostic).len() != 1,
                }
            },
            _ => false,
        },
{
    proof {
        reveal_strlit("");
    }
    let rule = match &diagnostic.code {
        Some(c) => c.as_str(),
        None => "",
    };
    proof {
        assert(""@.len() == 0);
        assert(rule@ =~= code_of(*diagnostic));
    }
    if !spacing_rule(rule) {
        let level = match &diagnostic.level {
            Some(l) => Some(l.as_str()),
            None => None,
        };
        let message = match &diagnostic.message {
            Some(m) => Some(m.as_str()),
            None => None,
        };
        return match diagnostic_error_message(level, message) {
            Some(e) => Reading::CompilerError(e),
            None => Reading::Ignored,
        };
    }
    let mut i: usize = 0;
    while i < diagnostic.spans.len() && !diagnostic.spans[i].primary
        invariant
            i <= diagnostic.spans@.len(),
            primary_from(diagnostic.spans@, 0) == primary_from(diagnostic.spans@, i as int),
        decreases diagnostic.spans@.len() - i,
    {
        i = i + 1;
    }
    let primary = if i < diagnostic.spans.len() {
        Some(&diagnostic.spans[i])
    } else {
        None
    };
    let (c1, f1) = tally_spans(&diagnostic.spans, 0, None);
    let (count, first) = tally_forest(&diagnostic.children, c1, f1);
    proof {
        let own = own_proposals(diagnostic.spans@, 0);
        let kids = proposals_from(diagnostic.children@, 0);
        let single = seq![*diagnostic];
        assert(proposals_from(single, 1) =~= Seq::<DiagnosticSpan>::empty());
        assert(single[0] == *diagnostic);
        assert(proposals(*diagnostic) =~= own + kids);
        lemma_add_capped_concat((0nat, None), own, kids);
        lemma_capped_concat(Seq::empty(), own + kids);
        assert(Seq::<DiagnosticSpan>::empty() + (own + kids) =~= own + kids);
    }
    let proposal = if count == 1 {
        first
    } else {
        None
    };
    let message = match &diagnostic.message {
        Some(m) => String::from_str(m.as_str()),
        None => String::new(),
    };
    Reading::Finding { rule: String::from_str(rule), message, primary, proposal }
}

/// The complaint about a suggestion that targets a file that is not Rust
/// source, given the file's workspace-relative name.
pub fn check_suggestion_target(relative: &str) -> (result: Result<(), String>)
    ensures
        result is Ok <==> rust_file(relative@),
        result matches Err(message) ==> message@ == "a statement_spacing suggestion targeted a non-Rust file: "@
            + relative@,
{
    if !is_rust_file(relative) {
        let mut message = String::from_str("a statement_spacing suggestion targeted a non-Rust file: ");
        message.append(relative);
        return Err(message);
    }
    Ok(())
}

/// Whether a span gives a byte range that lies within a file of `len` bytes.
pub open spec fn range_within(span: DiagnosticSpan, len: nat) -> bool {
    span.byte_start is Some && span.byte_end is Some && span.byte_start->0 <= span.byte_end->0
        && span.byte_end->0 <= len
}

/// Accepts the suggestion of a span for `data`, the bytes of the file
/// `relative`: the span must give its byte range, the range must lie within
/// the file, the replacement must be text, and both the replaced bytes and
/// the replacement must be whitespace; the checks come in that order.
pub fn accept_proposal(relative: &str, data: &[u8], span: &DiagnosticSpan, rule: &str) -> (result: Result<
    FileEdit,
    String,
>)
    ensures
        match result {
            Ok(edit) => {
                &&& range_within(*span, data@.len())
                &&& span.replacement is Text
                &&& whitespace_suggestion(
                    data@.subrange(span.byte_start->0 as int, span.byte_end->0 as int),
                    vstd::utf8::encode_utf8(span.replacement->Text_0@),
                )
                &&& edit.relative@ == relative@
                &&& edit.start == span.byte_start->0
                &&& edit.end == span.byte_end->0
                &&& edit.before@ == data@.subrange(span.byte_start->0 as int, span.byte_end->0 as int)
                &&& edit.after@ == vstd::utf8::encode_utf8(span.replacement->Text_0@)
                &&& edit.rule@ == rule@
            },
            Err(message) => if !range_within(*span, data@.len()) {
                message@ == "invalid suggestion byte range in "@ + relative@
            } else if !(span.replacement is Text) {
                message@ == "invalid suggestion replacement"@
            } else {
                message@ == "non-whitespace suggestion was rejected in "@ + relative@
            },
        },
{
    let (start, end) = match (span.byte_start, span.byte_end) {
        (Some(s), Some(e)) => (s, e),
        _ => {
            let mut message = String::from_str("invalid suggestion byte range in ");
            message.append(relative);
            return Err(message);
        },
    };
    if !(start <= end && end <= data.len() as u64) {
        let mut message = String::from_str("invalid suggestion byte range in ");
        message.append(relative);
        return Err(message);
    }
    let replacement = match &span.replacement {
        Replacement::Text(r) => r.as_str(),
        _ => {
            return Err(String::from_str("invalid suggestion replacement"));
        },
    };
    accept_suggestion(relative, data, start, end, replacement, rule)
}

} // verus!
