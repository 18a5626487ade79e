//! Canonical JSON export: the document model of `snipx check`,
//! `resolve` and `export`, built from parsing, expansion, resolution and
//! (optionally) the fragility lint. Serialisation itself is left to the
//! caller; this module decides every value the document holds.
use vstd::prelude::*;
use crate::diagnostic::{Diagnostic, DiagnosticCode, RelatedSpan, Severity, SourceSpan};
use crate::expand::{
    errors_view, expand, expansion_errors, expansion_facts, facts_view, option_view, ExpandOptions, ExpandResult,
    ExpandedStatement, LocalRegion, LocalScope, Value, ValueView,
};
use crate::diagnostic::same_diagnostics;
use crate::directives::{header_from, HeaderView};
use crate::fragility::{analyse_fragility, codes_and_spans, fragility_fold};
use crate::input::{InputForm, ParseOptions};
use crate::matching::TextSpan;
use crate::number::{classify_number, literal_is_finite, number_shape};
use crate::parser::{parse, parsed_from, Parse};
use crate::resolve::{
    errors_placed, facts_placed, resolutions_placed, resolve, IntralineaAnchor, ResolveOptions, ResolveResult,
    SnippetResolution,
};
use crate::syntax::SyntaxKind;
use crate::text::{append_range, chars_of, same_str, string_of};
use crate::tree::{selection, tokens_text, children_spec, element_text, node_span, start_kind, Element, SyntaxNode, SyntaxTree};
use crate::visible_text::{extract_visible_text, markdown_render, nfc, nfc_spec, profile_named, Profile};

verus! {

/// The language-specification version the exported documents conform to.
pub const SPEC_VERSION: &'static str = "0.1";

/// The version of this implementation.
pub const IMPLEMENTATION_VERSION: &'static str = "0.1.1";

#[derive(Debug, Clone)]
pub struct ExportRequest {
    pub source: String,
    pub input_form: InputForm,
    pub target_text: Option<String>,
    /// The requested profile; without one, a `@profile` header directive
    /// decides, and `plain` otherwise.
    pub profile: Option<Profile>,
    pub path: Option<String>,
    pub target_uri: Option<String>,
    pub ambient_subject: Option<Value>,
    /// Whether to append the fragility lint's warnings.
    pub lint: bool,
}

#[derive(Debug, Clone)]
pub struct ExportDocument {
    pub snipx_version: String,
    pub implementation: JsonImplementation,
    pub input: JsonInput,
    pub target: Option<JsonTarget>,
    pub visible_text: Option<JsonVisibleText>,
    pub facts: Vec<JsonFact>,
    pub resolutions: Vec<JsonResolution>,
    pub diagnostics: Vec<JsonDiagnostic>,
}

#[derive(Debug, Clone)]
pub struct JsonImplementation {
    pub name: String,
    pub version: String,
}

#[derive(Debug, Clone)]
pub struct JsonInput {
    pub form: String,
    pub path: Option<String>,
}

#[derive(Debug, Clone)]
pub struct JsonTarget {
    pub uri: Option<String>,
    pub profile: String,
}

#[derive(Debug, Clone)]
pub struct JsonVisibleText {
    pub normalisation: String,
    pub length: usize,
}

#[derive(Debug, Clone)]
pub struct JsonFact {
    pub subject: JsonValue,
    pub predicate: JsonValue,
    pub object: JsonValue,
    pub source: JsonFactSource,
}

#[derive(Debug, Clone)]
pub struct JsonFactSource {
    pub statement: JsonSpan,
    pub subject: Option<JsonSpan>,
    pub predicate: Option<JsonSpan>,
    pub object: Option<JsonSpan>,
}

/// A fact's subject, predicate or object, tagged by its `kind`.
#[derive(Debug, Clone)]
pub enum JsonValue {
    Name { value: String },
    Predicate { value: String },
    String { value: String },
    /// A finite number, as its decimal literal.
    Number { value: String },
    Boolean { value: bool },
    Uri { value: String },
    Snippet { source: String },
    TextSpanSnippet { source: String, span: Option<JsonSpan> },
    LocalSubject { marker: String, scope: String, region: String },
    TextSpanLocalSubject { marker: String, scope: String, region: String },
    WholeDocument,
    UnresolvedSnippet { source: String },
    UnresolvedNumber { source: String },
    UnresolvedLocalSubject { marker: String },
}

#[derive(Debug, Clone)]
pub struct JsonResolution {
    pub source: String,
    pub source_span: Option<JsonSpan>,
    pub spans: Vec<JsonSpan>,
}

#[derive(Debug, Clone)]
pub struct JsonDiagnostic {
    pub code: String,
    pub severity: String,
    pub message: String,
    pub span: Option<JsonSpan>,
    pub related: Vec<JsonRelatedSpan>,
}

#[derive(Debug, Clone, Copy, PartialEq, Eq, Structural)]
pub struct JsonSpan {
    pub start: usize,
    pub end: usize,
}

#[derive(Debug, Clone)]
pub struct JsonRelatedSpan {
    pub message: String,
    pub span: JsonSpan,
}

/// The stable upper-snake name of a diagnostic code.
pub open spec fn code_name(code: DiagnosticCode) -> Seq<char> {
    match code {
        DiagnosticCode::ParseError => "PARSE_ERROR"@,
        DiagnosticCode::UnterminatedSnippet => "UNTERMINATED_SNIPPET"@,
        DiagnosticCode::UnterminatedString => "UNTERMINATED_STRING"@,
        DiagnosticCode::UnterminatedBlockComment => "UNTERMINATED_BLOCK_COMMENT"@,
        DiagnosticCode::UnterminatedIntralineaBlock => "UNTERMINATED_INTRALINEA_BLOCK"@,
        DiagnosticCode::InvalidDirectivePosition => "INVALID_DIRECTIVE_POSITION"@,
        DiagnosticCode::DuplicateDirective => "DUPLICATE_DIRECTIVE"@,
        DiagnosticCode::InvalidLocalSubjectMarker => "INVALID_LOCAL_SUBJECT_MARKER"@,
        DiagnosticCode::EmptyLocalSubject => "EMPTY_LOCAL_SUBJECT"@,
        DiagnosticCode::InvalidCliUsage => "INVALID_CLI_USAGE"@,
        DiagnosticCode::MissingAmbientSubject => "MISSING_AMBIENT_SUBJECT"@,
        DiagnosticCode::InvalidDecorationTarget => "INVALID_DECORATION_TARGET"@,
        DiagnosticCode::InvalidStatementTerminator => "INVALID_STATEMENT_TERMINATOR"@,
        DiagnosticCode::UnsupportedProfile => "UNSUPPORTED_PROFILE"@,
        DiagnosticCode::RawHtmlOmitted => "RAW_HTML_OMITTED"@,
        DiagnosticCode::InvalidSnippet => "INVALID_SNIPPET"@,
        DiagnosticCode::InvalidNumber => "INVALID_NUMBER"@,
        DiagnosticCode::SnippetNotFound => "SNIPPET_NOT_FOUND"@,
        DiagnosticCode::SnippetAmbiguous => "SNIPPET_AMBIGUOUS"@,
        DiagnosticCode::FragileShortAnchor => "FRAGILE_SHORT_ANCHOR"@,
        DiagnosticCode::FragileNearDuplicate => "FRAGILE_NEAR_DUPLICATE"@,
        DiagnosticCode::FragileCaptureContext => "FRAGILE_CAPTURE_CONTEXT"@,
    }
}

pub fn diagnostic_code(code: DiagnosticCode) -> (r: String)
    ensures
        r@ == code_name(code),
{
    let name = match code {
        DiagnosticCode::ParseError => "PARSE_ERROR",
        DiagnosticCode::UnterminatedSnippet => "UNTERMINATED_SNIPPET",
        DiagnosticCode::UnterminatedString => "UNTERMINATED_STRING",
        DiagnosticCode::UnterminatedBlockComment => "UNTERMINATED_BLOCK_COMMENT",
        DiagnosticCode::UnterminatedIntralineaBlock => "UNTERMINATED_INTRALINEA_BLOCK",
        DiagnosticCode::InvalidDirectivePosition => "INVALID_DIRECTIVE_POSITION",
        DiagnosticCode::DuplicateDirective => "DUPLICATE_DIRECTIVE",
        DiagnosticCode::InvalidLocalSubjectMarker => "INVALID_LOCAL_SUBJECT_MARKER",
        DiagnosticCode::EmptyLocalSubject => "EMPTY_LOCAL_SUBJECT",
        DiagnosticCode::InvalidCliUsage => "INVALID_CLI_USAGE",
        DiagnosticCode::MissingAmbientSubject => "MISSING_AMBIENT_SUBJECT",
        DiagnosticCode::InvalidDecorationTarget => "INVALID_DECORATION_TARGET",
        DiagnosticCode::InvalidStatementTerminator => "INVALID_STATEMENT_TERMINATOR",
        DiagnosticCode::UnsupportedProfile => "UNSUPPORTED_PROFILE",
        DiagnosticCode::RawHtmlOmitted => "RAW_HTML_OMITTED",
        DiagnosticCode::InvalidSnippet => "INVALID_SNIPPET",
        DiagnosticCode::InvalidNumber => "INVALID_NUMBER",
        DiagnosticCode::SnippetNotFound => "SNIPPET_NOT_FOUND",
        DiagnosticCode::SnippetAmbiguous => "SNIPPET_AMBIGUOUS",
        DiagnosticCode::FragileShortAnchor => "FRAGILE_SHORT_ANCHOR",
        DiagnosticCode::FragileNearDuplicate => "FRAGILE_NEAR_DUPLICATE",
        DiagnosticCode::FragileCaptureContext => "FRAGILE_CAPTURE_CONTEXT",
    };
    name.to_owned()
}

pub open spec fn severity_name_spec(severity: Severity) -> Seq<char> {
    match severity {
        Severity::Error => "error"@,
        Severity::Warning => "warning"@,
    }
}

pub fn severity_name(severity: Severity) -> (r: String)
    ensures
        r@ == severity_name_spec(severity),
{
    match severity {
        Severity::Error => "error".to_owned(),
        Severity::Warning => "warning".to_owned(),
    }
}

pub open spec fn profile_name_spec(profile: Profile) -> Seq<char> {
    match profile {
        Profile::Plain => "plain"@,
        Profile::PlainLoose => "plain-loose"@,
        Profile::Markdown => "markdown"@,
        Profile::MarkdownLoose => "markdown-loose"@,
    }
}

pub fn profile_name(profile: Profile) -> (r: String)
    ensures
        r@ == profile_name_spec(profile),
{
    match profile {
        Profile::Plain => "plain".to_owned(),
        Profile::PlainLoose => "plain-loose".to_owned(),
        Profile::Markdown => "markdown".to_owned(),
        Profile::MarkdownLoose => "markdown-loose".to_owned(),
    }
}

pub open spec fn input_form_name_spec(form: InputForm) -> Seq<char> {
    match form {
        InputForm::Commentaria => "commentaria"@,
        InputForm::Marginalia => "marginalia"@,
        InputForm::Intralinea => "intralinea"@,
    }
}

pub fn input_form_name(form: InputForm) -> (r: String)
    ensures
        r@ == input_form_name_spec(form),
{
    match form {
        InputForm::Commentaria => "commentaria".to_owned(),
        InputForm::Marginalia => "marginalia".to_owned(),
        InputForm::Intralinea => "intralinea".to_owned(),
    }
}

pub open spec fn scope_name_spec(scope: LocalScope) -> Seq<char> {
    match scope {
        LocalScope::Sentence => "sentence"@,
        LocalScope::Paragraph => "paragraph"@,
    }
}

fn scope_name(scope: LocalScope) -> (r: String)
    ensures
        r@ == scope_name_spec(scope),
{
    match scope {
        LocalScope::Sentence => "sentence".to_owned(),
        LocalScope::Paragraph => "paragraph".to_owned(),
    }
}

pub open spec fn region_name_spec(region: LocalRegion) -> Seq<char> {
    match region {
        LocalRegion::Before => "before"@,
        LocalRegion::After => "after"@,
        LocalRegion::Whole => "whole"@,
    }
}

fn region_name(region: LocalRegion) -> (r: String)
    ensures
        r@ == region_name_spec(region),
{
    match region {
        LocalRegion::Before => "before".to_owned(),
        LocalRegion::After => "after".to_owned(),
        LocalRegion::Whole => "whole".to_owned(),
    }
}


pub open spec fn json_span_of(start: usize, end: usize) -> JsonSpan {
    JsonSpan { start, end }
}

pub open spec fn opt_json_span(span: Option<SourceSpan>) -> Option<JsonSpan> {
    match span {
        Some(s) => Some(JsonSpan { start: s.start, end: s.end }),
        None => None,
    }
}

/// `j` is the JSON form of the value `v`.
pub open spec fn json_value_of(v: ValueView, j: JsonValue) -> bool {
    match v {
        ValueView::Name(s) => j matches JsonValue::Name { value } && value@ == s,
        ValueView::Predicate(s) => j matches JsonValue::Predicate { value } && value@ == s,
        ValueView::String(s) => j matches JsonValue::String { value } && value@ == s,
        ValueView::Number(s) => if number_shape(s) && literal_is_finite(s) {
            j matches JsonValue::Number { value } && value@ == s
        } else {
            j matches JsonValue::UnresolvedNumber { source } && source@ == s
        },
        ValueView::InvalidNumber(s) => j matches JsonValue::UnresolvedNumber { source } && source@ == s,
        ValueView::Boolean(b) => j matches JsonValue::Boolean { value } && value == b,
        ValueView::Uri(s) => j matches JsonValue::Uri { value } && value@ == s,
        ValueView::Snippet(sv) => j matches JsonValue::Snippet { source } && source@ == sv.source,
        ValueView::TextSpanSnippet(sv) => j matches JsonValue::TextSpanSnippet { source, span } && source@
            == sv.source && span is None,
        ValueView::ResolvedTextSpan(sv, sp) => j matches JsonValue::TextSpanSnippet { source, span }
            && source@ == sv.source && span == Some(json_span_of(sp.start, sp.end)),
        ValueView::LocalSubject(l) => if l.text_span {
            j matches JsonValue::TextSpanLocalSubject { marker, scope, region } && marker@ == l.marker
                && scope@ == scope_name_spec(l.scope) && region@ == region_name_spec(l.region)
        } else {
            j matches JsonValue::LocalSubject { marker, scope, region } && marker@ == l.marker
                && scope@ == scope_name_spec(l.scope) && region@ == region_name_spec(l.region)
        },
        ValueView::WholeDocument => j matches JsonValue::WholeDocument,
        ValueView::Unresolved(s) => j matches JsonValue::UnresolvedSnippet { source } && source@ == s,
        ValueView::UnresolvedLocalSubject(m) => j matches JsonValue::UnresolvedLocalSubject { marker }
            && marker@ == m,
    }
}

/// The JSON form of a value.
pub fn json_value(value: &Value) -> (r: JsonValue)
    ensures
        json_value_of(value@, r),
{
    match value {
        Value::Name(s) => JsonValue::Name { value: s.clone() },
        Value::Predicate(s) => JsonValue::Predicate { value: s.clone() },
        Value::String(s) => JsonValue::String { value: s.clone() },
        Value::Number(s) => {
            if classify_number(chars_of(s.as_str()).as_slice()) == Some(true) {
                JsonValue::Number { value: s.clone() }
            } else {
                JsonValue::UnresolvedNumber { source: s.clone() }
            }
        },
        Value::InvalidNumber(s) => JsonValue::UnresolvedNumber { source: s.clone() },
        Value::Boolean(b) => JsonValue::Boolean { value: *b },
        Value::Uri(s) => JsonValue::Uri { value: s.clone() },
        Value::Snippet(v) => JsonValue::Snippet { source: v.source.clone() },
        Value::TextSpanSnippet(v) => JsonValue::TextSpanSnippet { source: v.source.clone(), span: None },
        Value::ResolvedTextSpan { snippet, span } => JsonValue::TextSpanSnippet {
            source: snippet.source.clone(),
            span: Some(JsonSpan { start: span.start, end: span.end }),
        },
        Value::LocalSubject(l) => {
            if l.text_span {
                JsonValue::TextSpanLocalSubject {
                    marker: l.marker.clone(),
                    scope: scope_name(l.scope),
                    region: region_name(l.region),
                }
            } else {
                JsonValue::LocalSubject {
                    marker: l.marker.clone(),
                    scope: scope_name(l.scope),
                    region: region_name(l.region),
                }
            }
        },
        Value::WholeDocument => JsonValue::WholeDocument,
        Value::Unresolved(s) => JsonValue::UnresolvedSnippet { source: s.clone() },
        Value::UnresolvedLocalSubject(m) => JsonValue::UnresolvedLocalSubject { marker: m.clone() },
    }
}

fn json_source_span(span: &SourceSpan) -> (r: JsonSpan)
    ensures
        r == json_span_of(span.start, span.end),
{
    JsonSpan { start: span.start, end: span.end }
}

fn json_opt_span(span: &Option<SourceSpan>) -> (r: Option<JsonSpan>)
    ensures
        r == opt_json_span(*span),
{
    match span {
        Some(s) => Some(json_source_span(s)),
        None => None,
    }
}

/// `f` is the JSON form of the fact `st`.
pub open spec fn json_fact_of(st: ExpandedStatement, f: JsonFact) -> bool {
    &&& json_value_of(st.subject@, f.subject)
    &&& json_value_of(st.predicate@, f.predicate)
    &&& json_value_of(st.object@, f.object)
    &&& f.source.statement == json_span_of(st.statement_span.start, st.statement_span.end)
    &&& f.source.subject == opt_json_span(st.subject_span)
    &&& f.source.predicate == opt_json_span(st.predicate_span)
    &&& f.source.object == opt_json_span(st.object_span)
}

fn json_fact(st: &ExpandedStatement) -> (r: JsonFact)
    ensures
        json_fact_of(*st, r),
{
    JsonFact {
        subject: json_value(&st.subject),
        predicate: json_value(&st.predicate),
        object: json_value(&st.object),
        source: JsonFactSource {
            statement: json_source_span(&st.statement_span),
            subject: json_opt_span(&st.subject_span),
            predicate: json_opt_span(&st.predicate_span),
            object: json_opt_span(&st.object_span),
        },
    }
}

/// `j` is the JSON form of the resolution `r`.
pub open spec fn json_resolution_of(r: SnippetResolution, j: JsonResolution) -> bool {
    &&& j.source@ == r.source@
    &&& j.source_span == opt_json_span(r.source_span)
    &&& j.spans@.len() == r.spans@.len()
    &&& forall|k: int| 0 <= k < j.spans@.len() ==> #[trigger] j.spans@[k] == json_span_of(r.spans@[k].start, r.spans@[k].end)
}

fn json_resolution(resolution: &SnippetResolution) -> (r: JsonResolution)
    ensures
        json_resolution_of(*resolution, r),
{
    let mut spans: Vec<JsonSpan> = Vec::new();
    let mut k: usize = 0;
    while k < resolution.spans.len()
        invariant
            k <= resolution.spans@.len(),
            spans@.len() == k,
            forall|t: int| 0 <= t < k ==> #[trigger] spans@[t] == json_span_of(resolution.spans@[t].start, resolution.spans@[t].end),
        decreases resolution.spans@.len() - k,
    {
        spans.push(JsonSpan { start: resolution.spans[k].start, end: resolution.spans[k].end });
        k = k + 1;
    }
    JsonResolution { source: resolution.source.clone(), source_span: json_opt_span(&resolution.source_span), spans }
}

/// `j` is the JSON form of the diagnostic `d`.
pub open spec fn json_diagnostic_of(d: Diagnostic, j: JsonDiagnostic) -> bool {
    &&& j.code@ == code_name(d.code)
    &&& j.severity@ == severity_name_spec(d.severity)
    &&& j.message@ == d.message@
    &&& j.span == opt_json_span(d.span)
    &&& j.related@.len() == d.related@.len()
    &&& forall|k: int| 0 <= k < j.related@.len() ==> (#[trigger] j.related@[k]).message@ == d.related@[k].message@
        && j.related@[k].span == json_span_of(d.related@[k].span.start, d.related@[k].span.end)
}

fn json_diagnostic(d: &Diagnostic) -> (r: JsonDiagnostic)
    ensures
        json_diagnostic_of(*d, r),
{
    let mut related: Vec<JsonRelatedSpan> = Vec::new();
    let mut k: usize = 0;
    while k < d.related.len()
        invariant
            k <= d.related@.len(),
            related@.len() == k,
            forall|t: int| 0 <= t < k ==> (#[trigger] related@[t]).message@ == d.related@[t].message@
                && related@[t].span == json_span_of(d.related@[t].span.start, d.related@[t].span.end),
        decreases d.related@.len() - k,
    {
        related.push(JsonRelatedSpan { message: d.related[k].message.clone(), span: json_source_span(&d.related[k].span) });
        k = k + 1;
    }
    JsonDiagnostic {
        code: diagnostic_code(d.code),
        severity: severity_name(d.severity),
        message: d.message.clone(),
        span: json_opt_span(&d.span),
        related,
    }
}


impl ExportDocument {
    /// Whether any diagnostic is an error.
    pub fn has_errors(&self) -> (r: bool)
        ensures
            r == exists|k: int| 0 <= k < self.diagnostics@.len() && #[trigger] self.diagnostics@[k].severity@ == "error"@,
    {
        let mut k: usize = 0;
        while k < self.diagnostics.len()
            invariant
                k <= self.diagnostics@.len(),
                forall|t: int| 0 <= t < k ==> #[trigger] self.diagnostics@[t].severity@ != "error"@,
            decreases self.diagnostics@.len() - k,
        {
            if same_str(self.diagnostics[k].severity.as_str(), "error") {
                return true;
            }
            k = k + 1;
        }
        false
    }

    /// Whether any diagnostic is a warning.
    pub fn has_warnings(&self) -> (r: bool)
        ensures
            r == exists|k: int| 0 <= k < self.diagnostics@.len() && #[trigger] self.diagnostics@[k].severity@ == "warning"@,
    {
        let mut k: usize = 0;
        while k < self.diagnostics.len()
            invariant
                k <= self.diagnostics@.len(),
                forall|t: int| 0 <= t < k ==> #[trigger] self.diagnostics@[t].severity@ != "warning"@,
            decreases self.diagnostics@.len() - k,
        {
            if same_str(self.diagnostics[k].severity.as_str(), "warning") {
                return true;
            }
            k = k + 1;
        }
        false
    }

    /// Whether the document reports an unsupported profile.
    pub fn has_unsupported_features(&self) -> (r: bool)
        ensures
            r == exists|k: int| 0 <= k < self.diagnostics@.len() && #[trigger] self.diagnostics@[k].code@ == "UNSUPPORTED_PROFILE"@,
    {
        let mut k: usize = 0;
        while k < self.diagnostics.len()
            invariant
                k <= self.diagnostics@.len(),
                forall|t: int| 0 <= t < k ==> #[trigger] self.diagnostics@[t].code@ != "UNSUPPORTED_PROFILE"@,
            decreases self.diagnostics@.len() - k,
        {
            if same_str(self.diagnostics[k].code.as_str(), "UNSUPPORTED_PROFILE") {
                return true;
            }
            k = k + 1;
        }
        false
    }
}


/// Whether an element is an intralinea block.
pub open spec fn is_block(tree: &SyntaxTree, element: Element) -> bool {
    element matches Element::Node(j) && start_kind(tree.events@[j as int]) == SyntaxKind::IntralineaBlock
}

/// The host text of `elements`: all of them but the intralinea blocks.
pub open spec fn host_text(tree: &SyntaxTree, elements: Seq<Element>) -> Seq<char>
    decreases elements.len(),
{
    if elements.len() == 0 {
        Seq::empty()
    } else {
        host_text(tree, elements.drop_last()) + if is_block(tree, elements.last()) {
            Seq::empty()
        } else {
            element_text(tree, elements.last())
        }
    }
}

/// An anchor for each intralinea block among `elements`: its span, and
/// how many characters of NFC host text come before it.
pub open spec fn block_anchors(tree: &SyntaxTree, elements: Seq<Element>) -> Seq<IntralineaAnchor>
    decreases elements.len(),
{
    if elements.len() == 0 {
        Seq::empty()
    } else {
        let before = block_anchors(tree, elements.drop_last());
        if is_block(tree, elements.last()) {
            before.push(
                IntralineaAnchor {
                    block_span: node_span(tree, elements.last()->Node_0 as int),
                    visible_offset: nfc_spec(host_text(tree, elements.drop_last())).len() as usize,
                },
            )
        } else {
            before
        }
    }
}

/// The host text of an intralinea document (everything outside its
/// `{{ ... }}` blocks) and, for each block, where it stands in that
/// text once NFC-normalised.
pub fn intralinea_visible_source(parsed: &Parse) -> (r: (String, Vec<IntralineaAnchor>))
    requires
        parsed.wf(),
    ensures
        r.0@ == host_text(&parsed.tree, children_spec(parsed.tree.events@, 0)),
        r.1@ == block_anchors(&parsed.tree, children_spec(parsed.tree.events@, 0)),
{
    let root = parsed.syntax();
    let elements = root.children_with_tokens();
    let mut text: Vec<char> = Vec::new();
    let mut anchors: Vec<IntralineaAnchor> = Vec::new();
    let mut k: usize = 0;
    while k < elements.len()
        invariant
            k <= elements@.len(),
            root.valid(),
            root.tree == &parsed.tree,
            root.index == 0,
            elements@ == children_spec(parsed.tree.events@, 0),
            text@ == host_text(&parsed.tree, elements@.take(k as int)),
            anchors@ == block_anchors(&parsed.tree, elements@.take(k as int)),
            forall|t: int|
                #![trigger elements@[t]]
                0 <= t < elements@.len() ==> match elements@[t] {
                    Element::Node(j) => root.index < j < parsed.tree.events@.len(),
                    Element::Token(_, s, e) => s <= e <= parsed.tree.source@.len(),
                },
        decreases elements@.len() - k,
    {
        proof {
            assert(elements@.take(k + 1).drop_last() =~= elements@.take(k as int));
            assert(elements@.take(k + 1).last() == elements@[k as int]);
        }
        match elements[k] {
            Element::Node(j) => {
                let node = SyntaxNode { tree: &parsed.tree, index: j };
                if node.kind() == SyntaxKind::IntralineaBlock {
                    let offset = nfc(text.as_slice()).len();
                    let block_span = node.source_span();
                    anchors.push(IntralineaAnchor { block_span, visible_offset: offset });
                } else {
                    let (start, end) = node.char_range();
                    append_range(&mut text, parsed.tree.source.as_slice(), start, end);
                }
            },
            Element::Token(_, start, end) => {
                append_range(&mut text, parsed.tree.source.as_slice(), start, end);
            },
        }
        k = k + 1;
    }
    assert(elements@.take(k as int) =~= elements@);
    (string_of(text.as_slice()), anchors)
}


/// A number value that a JSON number cannot hold.
pub open spec fn non_finite(v: ValueView) -> bool {
    v matches ValueView::Number(s) && !(number_shape(s) && literal_is_finite(s))
}

fn is_non_finite(value: &Value) -> (r: bool)
    ensures
        r == non_finite(value@),
{
    match value {
        Value::Number(s) => classify_number(chars_of(s.as_str()).as_slice()) != Some(true),
        _ => false,
    }
}

/// The fragility codes.
pub open spec fn is_fragile_name(name: Seq<char>) -> bool {
    name == code_name(DiagnosticCode::FragileShortAnchor) || name == code_name(DiagnosticCode::FragileNearDuplicate)
        || name == code_name(DiagnosticCode::FragileCaptureContext)
}

/// A code's name is a fragility name exactly for the fragility codes.
/// Only the unsupported-profile code has the name `UNSUPPORTED_PROFILE`.
proof fn lemma_unsupported_name(code: DiagnosticCode)
    ensures
        (code_name(code) == "UNSUPPORTED_PROFILE"@) == (code == DiagnosticCode::UnsupportedProfile),
{
    reveal_strlit("PARSE_ERROR");
    reveal_strlit("UNTERMINATED_SNIPPET");
    reveal_strlit("UNTERMINATED_STRING");
    reveal_strlit("UNTERMINATED_BLOCK_COMMENT");
    reveal_strlit("UNTERMINATED_INTRALINEA_BLOCK");
    reveal_strlit("INVALID_DIRECTIVE_POSITION");
    reveal_strlit("DUPLICATE_DIRECTIVE");
    reveal_strlit("INVALID_LOCAL_SUBJECT_MARKER");
    reveal_strlit("EMPTY_LOCAL_SUBJECT");
    reveal_strlit("INVALID_CLI_USAGE");
    reveal_strlit("MISSING_AMBIENT_SUBJECT");
    reveal_strlit("INVALID_DECORATION_TARGET");
    reveal_strlit("INVALID_STATEMENT_TERMINATOR");
    reveal_strlit("UNSUPPORTED_PROFILE");
    reveal_strlit("RAW_HTML_OMITTED");
    reveal_strlit("INVALID_SNIPPET");
    reveal_strlit("INVALID_NUMBER");
    reveal_strlit("SNIPPET_NOT_FOUND");
    reveal_strlit("SNIPPET_AMBIGUOUS");
    reveal_strlit("FRAGILE_SHORT_ANCHOR");
    reveal_strlit("FRAGILE_NEAR_DUPLICATE");
    reveal_strlit("FRAGILE_CAPTURE_CONTEXT");
    let n = code_name(code);
    if code != DiagnosticCode::UnsupportedProfile {
        assert(!(n[0] == 'U' && n[2] == 'S'));
        assert("UNSUPPORTED_PROFILE"@[0] == 'U' && "UNSUPPORTED_PROFILE"@[2] == 'S');
    }
}

/// Some diagnostic has the unsupported-profile code.
pub open spec fn has_unsupported(diagnostics: Seq<Diagnostic>) -> bool {
    exists|k: int| 0 <= k < diagnostics.len() && (#[trigger] diagnostics[k]).code == DiagnosticCode::UnsupportedProfile
}

/// Appending a diagnostic that is not the unsupported-profile error
/// changes nothing of whether one is reported.
proof fn lemma_push_one(before: Seq<JsonDiagnostic>, after: Seq<JsonDiagnostic>)
    requires
        after.len() == before.len() + 1,
        forall|k: int| 0 <= k < before.len() ==> #[trigger] after[k] == before[k],
        after.last().code@ != "UNSUPPORTED_PROFILE"@,
    ensures
        reports_unsupported(after) == reports_unsupported(before),
{
    if reports_unsupported(after) {
        let k = choose|k: int| 0 <= k < after.len() && #[trigger] after[k].code@ == "UNSUPPORTED_PROFILE"@;
        assert(k < before.len());
        assert(before[k] == after[k]);
    }
    if reports_unsupported(before) {
        let k = choose|k: int| 0 <= k < before.len() && #[trigger] before[k].code@ == "UNSUPPORTED_PROFILE"@;
        assert(after[k] == before[k]);
    }
}

/// Appending the JSON forms of `added` reports an unsupported profile
/// exactly when one was reported before or `added` holds one.
proof fn lemma_push_reports(before: Seq<JsonDiagnostic>, added: Seq<Diagnostic>, after: Seq<JsonDiagnostic>)
    requires
        after.len() == before.len() + added.len(),
        forall|k: int| 0 <= k < before.len() ==> #[trigger] after[k] == before[k],
        forall|k: int| 0 <= k < added.len() ==> json_diagnostic_of(added[k], #[trigger] after[before.len() + k]),
    ensures
        reports_unsupported(after) <==> (reports_unsupported(before) || has_unsupported(added)),
{
    if reports_unsupported(after) {
        let k = choose|k: int| 0 <= k < after.len() && #[trigger] after[k].code@ == "UNSUPPORTED_PROFILE"@;
        if k >= before.len() {
            let j = k - before.len();
            assert(json_diagnostic_of(added[j], after[before.len() + j]));
            lemma_unsupported_name(added[j].code);
            assert(added[j].code == DiagnosticCode::UnsupportedProfile);
        } else {
            assert(before[k].code@ == "UNSUPPORTED_PROFILE"@);
        }
    }
    if reports_unsupported(before) {
        let k = choose|k: int| 0 <= k < before.len() && #[trigger] before[k].code@ == "UNSUPPORTED_PROFILE"@;
        assert(after[k].code@ == "UNSUPPORTED_PROFILE"@);
    }
    if has_unsupported(added) {
        let j = choose|j: int| 0 <= j < added.len() && (#[trigger] added[j]).code == DiagnosticCode::UnsupportedProfile;
        assert(json_diagnostic_of(added[j], after[before.len() + j]));
        lemma_unsupported_name(added[j].code);
        assert(after[before.len() + j].code@ == "UNSUPPORTED_PROFILE"@);
    }
}

proof fn lemma_fragile_names(code: DiagnosticCode)
    ensures
        is_fragile_name(code_name(code)) <==> code.is_fragile(),
{
    reveal_strlit("PARSE_ERROR");
    reveal_strlit("UNTERMINATED_SNIPPET");
    reveal_strlit("UNTERMINATED_STRING");
    reveal_strlit("UNTERMINATED_BLOCK_COMMENT");
    reveal_strlit("UNTERMINATED_INTRALINEA_BLOCK");
    reveal_strlit("INVALID_DIRECTIVE_POSITION");
    reveal_strlit("DUPLICATE_DIRECTIVE");
    reveal_strlit("INVALID_LOCAL_SUBJECT_MARKER");
    reveal_strlit("EMPTY_LOCAL_SUBJECT");
    reveal_strlit("INVALID_CLI_USAGE");
    reveal_strlit("MISSING_AMBIENT_SUBJECT");
    reveal_strlit("INVALID_DECORATION_TARGET");
    reveal_strlit("INVALID_STATEMENT_TERMINATOR");
    reveal_strlit("UNSUPPORTED_PROFILE");
    reveal_strlit("RAW_HTML_OMITTED");
    reveal_strlit("INVALID_SNIPPET");
    reveal_strlit("INVALID_NUMBER");
    reveal_strlit("SNIPPET_NOT_FOUND");
    reveal_strlit("SNIPPET_AMBIGUOUS");
    reveal_strlit("FRAGILE_SHORT_ANCHOR");
    reveal_strlit("FRAGILE_NEAR_DUPLICATE");
    reveal_strlit("FRAGILE_CAPTURE_CONTEXT");
    let n = code_name(code);
    assert(code_name(DiagnosticCode::FragileShortAnchor)[0] == 'F');
    assert(code_name(DiagnosticCode::FragileNearDuplicate)[0] == 'F');
    assert(code_name(DiagnosticCode::FragileCaptureContext)[0] == 'F');
    if !code.is_fragile() {
        assert(n[0] != 'F');
    }
}

/// The document's diagnostics are errors and warnings, and fragility
/// warnings occur only when `lint` asked for them.
pub open spec fn document_diagnostics_ok(diagnostics: Seq<JsonDiagnostic>, lint: bool) -> bool {
    forall|k: int|
        0 <= k < diagnostics.len() ==> {
            &&& ((#[trigger] diagnostics[k]).severity@ == "error"@ || diagnostics[k].severity@ == "warning"@)
            &&& (is_fragile_name(diagnostics[k].code@) ==> lint && diagnostics[k].severity@ == "warning"@)
        }
}

/// `e` is what expanding the parse `p` gives with the ambient subject
/// `ambient`: the parse's diagnostics, then the expansion's errors, and
/// the expansion's facts.
pub open spec fn expanded_by(p: Parse, ambient: Option<ValueView>, e: ExpandResult) -> bool {
    let stmts = selection(p.tree.events@, 0, seq![SyntaxKind::Statement], true);
    let n = p.diagnostics@.len() as int;
    &&& e.diagnostics@.len() >= n
    &&& same_diagnostics(e.diagnostics@.subrange(0, n), p.diagnostics@)
    &&& facts_view(e.statements@) == expansion_facts(&p.tree, stmts, 0, ambient)
    &&& errors_view(e.diagnostics@.subrange(n, e.diagnostics@.len() as int)) == expansion_errors(
        &p.tree,
        stmts,
        0,
        ambient,
    )
}

/// `rr` is what resolving `e` against the visible text `text` gives,
/// matching loosely where `loose`, with the intralinea anchors `anchors`.
pub open spec fn resolved_by(
    e: ExpandResult,
    text: Seq<char>,
    loose: bool,
    anchors: Seq<IntralineaAnchor>,
    rr: ResolveResult,
) -> bool {
    let stmts = e.statements@;
    &&& facts_placed(stmts, stmts.len() as int, text, loose, anchors, rr.statements@)
    &&& resolutions_placed(stmts, stmts.len() as int, text, loose, anchors, rr.resolutions@)
    &&& errors_placed(stmts, stmts.len() as int, text, loose, anchors, e.diagnostics@.len() as int, rr.diagnostics@)
    &&& rr.diagnostics@.len() >= e.diagnostics@.len()
    &&& same_diagnostics(rr.diagnostics@.subrange(0, e.diagnostics@.len() as int), e.diagnostics@)
}

/// The header directives of the commentaria parse `p`.
pub open spec fn header_of(p: Parse) -> HeaderView {
    header_from(
        &p.tree,
        selection(p.tree.events@, 0, seq![SyntaxKind::Statement, SyntaxKind::TargetDirective, SyntaxKind::ProfileDirective], false),
        0,
        HeaderView { profile: None, target: None, profile_seen: false, target_seen: false, duplicates: Seq::empty() },
    )
}

/// The header of a commentaria source names a profile that does not exist.
pub open spec fn unknown_profile(form: InputForm, p: Parse) -> bool {
    form == InputForm::Commentaria && (header_of(p).profile matches Some((name, _)) && profile_named(name) is None)
}

/// The profile a document is exported under: the requested one, else the
/// header's `@profile` of a commentaria source when it names one, else
/// plain.
pub open spec fn export_profile(asked: Option<Profile>, form: InputForm, p: Parse) -> Profile {
    match asked {
        Some(x) => x,
        None => if form == InputForm::Commentaria {
            match header_of(p).profile {
                Some((name, _)) => match profile_named(name) {
                    Some(q) => q,
                    None => Profile::Plain,
                },
                None => Profile::Plain,
            }
        } else {
            Profile::Plain
        },
    }
}

/// The visible text of `target` under `profile`.
pub open spec fn visible_chars(target: Seq<char>, profile: Profile) -> Seq<char> {
    if profile == Profile::Plain || profile == Profile::PlainLoose {
        nfc_spec(target)
    } else {
        nfc_spec(markdown_render(target).0)
    }
}

/// The target text that a request resolves against: the given one, else
/// for an intralinea source its own host text.
pub open spec fn target_of(request: ExportRequest, p: Parse) -> Option<Seq<char>> {
    match request.target_text {
        Some(t) => Some(t@),
        None => if request.input_form == InputForm::Intralinea {
            Some(host_text(&p.tree, children_spec(p.tree.events@, 0)))
        } else {
            None
        },
    }
}

/// The JSON facts are those of the statements, in order.
pub open spec fn facts_json(statements: Seq<ExpandedStatement>, facts: Seq<JsonFact>) -> bool {
    &&& facts.len() == statements.len()
    &&& forall|k: int| 0 <= k < facts.len() ==> json_fact_of(statements[k], #[trigger] facts[k])
}

/// The document's diagnostics end with the JSON forms of `warnings`,
/// each given by code and span.
pub open spec fn ends_with_warnings(diagnostics: Seq<JsonDiagnostic>, warnings: Seq<(DiagnosticCode, Option<SourceSpan>)>) -> bool {
    let n = diagnostics.len() - warnings.len();
    &&& n >= 0
    &&& forall|k: int|
        0 <= k < warnings.len() ==> (#[trigger] diagnostics[n + k]).code@ == code_name(warnings[k].0)
            && diagnostics[n + k].span == opt_json_span(warnings[k].1)
}

/// The document's diagnostics `js` begin with the JSON forms of `ds`, in
/// order.
pub open spec fn begins_with_reports(js: Seq<JsonDiagnostic>, ds: Seq<Diagnostic>) -> bool {
    &&& js.len() >= ds.len()
    &&& forall|k: int| 0 <= k < ds.len() ==> json_diagnostic_of(ds[k], #[trigger] js[k])
}

/// Some diagnostic of the document is the unsupported-profile error.
pub open spec fn reports_unsupported(diagnostics: Seq<JsonDiagnostic>) -> bool {
    exists|k: int| 0 <= k < diagnostics.len() && #[trigger] diagnostics[k].code@ == "UNSUPPORTED_PROFILE"@
}

/// `r` is the document that `request` gives by way of the parse `p` (as
/// `parse` states it) of its source, the expansion `e` of it and, with a target, the
/// resolution `rr` against the target's visible text with the anchors
/// `anchors`.
pub open spec fn exported_by(
    request: ExportRequest,
    p: Parse,
    e: ExpandResult,
    rr: ResolveResult,
    anchors: Seq<IntralineaAnchor>,
    r: ExportDocument,
) -> bool {
    let profile = export_profile(request.profile, request.input_form, p);
    &&& parsed_from(request.source@, request.input_form, p)
    &&& expanded_by(p, option_view(request.ambient_subject), e)
    &&& r.target matches Some(t) && t.profile@ == profile_name_spec(profile)
    &&& (reports_unsupported(r.diagnostics@) <==> unknown_profile(request.input_form, p))
    &&& match target_of(request, p) {
        None => {
            &&& facts_json(e.statements@, r.facts@)
            &&& begins_with_reports(r.diagnostics@, e.diagnostics@)
            &&& r.visible_text is None
            &&& r.resolutions@.len() == 0
        },
        Some(target) => {
            let text = visible_chars(target, profile);
            &&& resolved_by(e, text, profile.is_loose_spec(), anchors, rr)
            &&& facts_json(rr.statements@, r.facts@)
            &&& begins_with_reports(r.diagnostics@, rr.diagnostics@)
            &&& r.resolutions@.len() == rr.resolutions@.len()
            &&& (forall|k: int| 0 <= k < r.resolutions@.len() ==> json_resolution_of(rr.resolutions@[k], #[trigger] r.resolutions@[k]))
            &&& r.visible_text matches Some(v) && v.length == text.len() && v.normalisation@ == seq!['N', 'F', 'C']
            &&& request.lint ==> ends_with_warnings(
                r.diagnostics@,
                fragility_fold(rr.statements@, rr.statements@.len() as int, rr.resolutions@, text, profile).warnings,
            )
        },
    }
}

/// Builds the canonical document for a SnipX source: its facts, and with
/// target text (given, or an intralinea document's own host text) the
/// visible text and resolutions; every diagnostic on the way, and with
/// `lint` the fragility warnings.
#[verifier::rlimit(80)]
#[verifier::spinoff_prover]
pub fn export_json(request: ExportRequest) -> (r: ExportDocument)
    ensures
        r.snipx_version@ == SPEC_VERSION@,
        r.implementation.name@ == "snipx"@,
        r.implementation.version@ == IMPLEMENTATION_VERSION@,
        r.input.form@ == input_form_name_spec(request.input_form),
        match (r.input.path, request.path) {
            (Some(a), Some(b)) => a@ == b@,
            (None, None) => true,
            _ => false,
        },
        r.target matches Some(t) && (request.profile matches Some(p) ==> t.profile@ == profile_name_spec(p)),
        r.target matches Some(t) && (request.target_uri matches Some(u) ==> t.uri matches Some(x) && x@ == u@),
        request.target_text is None && request.input_form != InputForm::Intralinea ==> r.visible_text is None
            && r.resolutions@.len() == 0,
        document_diagnostics_ok(r.diagnostics@, request.lint),
        exists|p: Parse, e: ExpandResult, rr: ResolveResult, anchors: Seq<IntralineaAnchor>|
            #[trigger] exported_by(request, p, e, rr, anchors, r),
{
    let ghost req = request;
    let ghost mut rr_w: ResolveResult = vstd::pervasive::arbitrary();
    let input_form = request.input_form;
    let parsed = parse(request.source.as_str(), ParseOptions { input_form });
    let mut directive_diagnostics: Vec<Diagnostic> = Vec::new();
    let mut directive_profile: Option<Profile> = None;
    let mut directive_target: Option<String> = None;
    if input_form == InputForm::Commentaria {
        let header = crate::ast::Root { syntax: parsed.syntax() }.header_directives();
        proof {
            assert(crate::directives::directive_view(header.profile) == header_of(parsed).profile);
        }
        directive_diagnostics = header.diagnostics;
        let ghost dups = directive_diagnostics@;
        assert(!has_unsupported(dups)) by {
            if has_unsupported(dups) {
                let k = choose|k: int| 0 <= k < dups.len() && (#[trigger] dups[k]).code == DiagnosticCode::UnsupportedProfile;
            }
        }
        if let Some(d) = header.profile {
            directive_profile = Profile::from_name(d.value.as_str());
            if directive_profile.is_none() {
                let mut message = "Unsupported profile: ".to_owned();
                message.append(d.value.as_str());
                directive_diagnostics.push(
                    Diagnostic {
                        code: DiagnosticCode::UnsupportedProfile,
                        severity: Severity::Error,
                        message,
                        span: Some(d.span),
                        related: Vec::new(),
                    },
                );
                assert(directive_diagnostics@[dups.len() as int].code == DiagnosticCode::UnsupportedProfile);
            } else {
                assert(directive_diagnostics@ == dups);
            }
        } else {
            assert(directive_diagnostics@ == dups);
        }
        assert(has_unsupported(directive_diagnostics@) <==> (header_of(parsed).profile matches Some((name, _))
            && profile_named(name) is None)) by {
            if has_unsupported(directive_diagnostics@) && directive_diagnostics@ != dups {
                let k = choose|k: int| 0 <= k < directive_diagnostics@.len() && (#[trigger] directive_diagnostics@[k]).code
                    == DiagnosticCode::UnsupportedProfile;
                if k < dups.len() {
                    assert(directive_diagnostics@[k] == dups[k]);
                }
            }
        }
        if let Some(d) = header.target {
            directive_target = Some(d.value);
        }
    }
    assert(has_unsupported(directive_diagnostics@) <==> unknown_profile(req.input_form, parsed));
    assert(input_form == InputForm::Commentaria ==> directive_profile == match header_of(parsed).profile {
        Some((name, _)) => profile_named(name),
        None => None,
    });
    assert(input_form != InputForm::Commentaria ==> directive_profile is None);
    let profile = match request.profile {
        Some(p) => p,
        None => match directive_profile {
            Some(p) => p,
            None => Profile::Plain,
        },
    };
    assert(profile == export_profile(req.profile, req.input_form, parsed));
    let (implicit_target, anchors) = if input_form == InputForm::Intralinea {
        let (text, anchors) = intralinea_visible_source(&parsed);
        (Some(text), anchors)
    } else {
        (None, Vec::new())
    };
    let ghost anchors_view = anchors@;
    let expanded = expand(&parsed, ExpandOptions { ambient_subject: request.ambient_subject });
    assert(expanded_by(parsed, option_view(req.ambient_subject), expanded));
    assert forall|k: int| 0 <= k < expanded.diagnostics@.len() implies (#[trigger] expanded.diagnostics@[k]).code
        != DiagnosticCode::UnsupportedProfile by {
        let n = parsed.diagnostics@.len() as int;
        if k < n {
            assert(expanded.diagnostics@.subrange(0, n)[k] == expanded.diagnostics@[k]);
            assert(expanded.diagnostics@[k].same(&parsed.diagnostics@[k]));
        }
    }
    let target_text = match request.target_text {
        Some(t) => Some(t),
        None => implicit_target,
    };
    assert(match target_text {
        Some(t) => target_of(req, parsed) == Some(t@),
        None => target_of(req, parsed) is None,
    });
    let mut visible_text: Option<JsonVisibleText> = None;
    let mut facts: Vec<JsonFact> = Vec::new();
    let mut resolutions: Vec<JsonResolution> = Vec::new();
    let mut diagnostics: Vec<JsonDiagnostic> = Vec::new();
    let mut statements_checked = false;
    if let Some(target) = target_text {
        match extract_visible_text(target.as_str(), profile) {
            Ok(visible) => {
                let resolved = resolve(
                    &expanded,
                    &visible,
                    ResolveOptions { profile: Some(profile), intralinea_anchors: anchors },
                );
                proof {
                    rr_w = resolved;
                }
                assert(visible.text@ == visible_chars(target@, profile));
                assert(resolved_by(expanded, visible_chars(target@, profile), profile.is_loose_spec(), anchors_view, resolved));
                assert forall|k: int| 0 <= k < resolved.diagnostics@.len() implies (#[trigger] resolved.diagnostics@[k]).code
                    != DiagnosticCode::UnsupportedProfile by {
                    let n = expanded.diagnostics@.len() as int;
                    if k < n {
                        assert(resolved.diagnostics@.subrange(0, n)[k] == resolved.diagnostics@[k]);
                        assert(resolved.diagnostics@[k].same(&expanded.diagnostics@[k]));
                    }
                }
                visible_text = Some(
                    JsonVisibleText {
                        normalisation: visible.normalisation.clone(),
                        length: chars_of(visible.text.as_str()).len(),
                    },
                );
                push_facts(&mut facts, &resolved.statements, &mut statements_checked);
        assert(facts_json(resolved.statements@, facts@)) by {
            assert forall|k: int| 0 <= k < facts@.len() implies json_fact_of(resolved.statements@[k], #[trigger] facts@[k]) by {
                assert(facts@[0 + k] == facts@[k]);
            }
        }
                let mut k: usize = 0;
                while k < resolved.resolutions.len()
                    invariant
                        k <= resolved.resolutions@.len(),
                        resolutions@.len() == k,
                        forall|t: int| 0 <= t < k ==> json_resolution_of(resolved.resolutions@[t], #[trigger] resolutions@[t]),
                    decreases resolved.resolutions@.len() - k,
                {
                    resolutions.push(json_resolution(&resolved.resolutions[k]));
                    k = k + 1;
                }
                push_diagnostics(&mut diagnostics, &resolved.diagnostics, Ghost(request.lint));
                let ghost lead = diagnostics@;
                push_diagnostics(&mut diagnostics, &visible.diagnostics, Ghost(request.lint));
                push_diagnostics(&mut diagnostics, &directive_diagnostics, Ghost(request.lint));
                if statements_checked {
                    let ghost before_push = diagnostics@;
                    diagnostics.push(non_finite_diagnostic());
                    proof {
                        lemma_push_one(before_push, diagnostics@);
                    }
                }
                if request.lint {
                    let warnings = analyse_fragility(&resolved, &visible, profile);
                    let ghost before_push = diagnostics@;
                    push_lint(&mut diagnostics, &warnings);
                    proof {
                        let n = before_push.len() as int;
                        assert forall|k: int| 0 <= k < warnings@.len() implies (#[trigger] diagnostics@[n + k]).code@
                            == code_name(codes_and_spans(warnings@)[k].0) && diagnostics@[n + k].span == opt_json_span(
                            codes_and_spans(warnings@)[k].1,
                        ) by {
                            assert(json_diagnostic_of(warnings@[k], diagnostics@[n + k]));
                        }
                        assert(ends_with_warnings(diagnostics@, codes_and_spans(warnings@)));
                        lemma_push_reports(before_push, warnings@, diagnostics@);
                        assert(!has_unsupported(warnings@)) by {
                            if has_unsupported(warnings@) {
                                let k = choose|k: int| 0 <= k < warnings@.len() && (#[trigger] warnings@[k]).code
                                    == DiagnosticCode::UnsupportedProfile;
                                assert(crate::fragility::fragility_warning(warnings@[k]));
                            }
                        }
                    }
                }
                assert forall|k: int| 0 <= k < resolved.diagnostics@.len() implies json_diagnostic_of(
                    resolved.diagnostics@[k],
                    #[trigger] diagnostics@[k],
                ) by {
                    assert(lead[0 + k] == lead[k]);
                }
                assert(begins_with_reports(diagnostics@, resolved.diagnostics@));
            },
            Err(error) => {
                assert(false);
                push_facts(&mut facts, &expanded.statements, &mut statements_checked);
        assert(facts_json(expanded.statements@, facts@)) by {
            assert forall|k: int| 0 <= k < facts@.len() implies json_fact_of(expanded.statements@[k], #[trigger] facts@[k]) by {
                assert(facts@[0 + k] == facts@[k]);
            }
        }
                push_diagnostics(&mut diagnostics, &expanded.diagnostics, Ghost(request.lint));
                let converted = json_diagnostic(&error);
                proof {
                    lemma_fragile_names(error.code);
                }
                diagnostics.push(converted);
                push_diagnostics(&mut diagnostics, &directive_diagnostics, Ghost(request.lint));
                if statements_checked {
                    let ghost before_push = diagnostics@;
                    diagnostics.push(non_finite_diagnostic());
                    proof {
                        lemma_push_one(before_push, diagnostics@);
                    }
                }
            },
        }
    } else {
        push_facts(&mut facts, &expanded.statements, &mut statements_checked);
        assert(facts_json(expanded.statements@, facts@)) by {
            assert forall|k: int| 0 <= k < facts@.len() implies json_fact_of(expanded.statements@[k], #[trigger] facts@[k]) by {
                assert(facts@[0 + k] == facts@[k]);
            }
        }
        push_diagnostics(&mut diagnostics, &expanded.diagnostics, Ghost(request.lint));
        let ghost lead = diagnostics@;
        push_diagnostics(&mut diagnostics, &directive_diagnostics, Ghost(request.lint));
        if statements_checked {
            let ghost before_push = diagnostics@;
            diagnostics.push(non_finite_diagnostic());
            proof {
                lemma_push_one(before_push, diagnostics@);
            }
        }
        assert forall|k: int| 0 <= k < expanded.diagnostics@.len() implies json_diagnostic_of(
            expanded.diagnostics@[k],
            #[trigger] diagnostics@[k],
        ) by {
            assert(lead[0 + k] == lead[k]);
        }
        assert(begins_with_reports(diagnostics@, expanded.diagnostics@));
    }
    let target_uri = match request.target_uri {
        Some(u) => Some(u),
        None => directive_target,
    };
    let r = ExportDocument {
        snipx_version: SPEC_VERSION.to_owned(),
        implementation: JsonImplementation { name: "snipx".to_owned(), version: IMPLEMENTATION_VERSION.to_owned() },
        input: JsonInput { form: input_form_name(input_form), path: request.path },
        target: Some(JsonTarget { uri: target_uri, profile: profile_name(profile) }),
        visible_text,
        facts,
        resolutions,
        diagnostics,
    };
    assert(exported_by(req, parsed, expanded, rr_w, anchors_view, r));
    r
}

/// The error that reports a number a JSON number cannot hold.
fn non_finite_diagnostic() -> (r: JsonDiagnostic)
    ensures
        r.code@ == code_name(DiagnosticCode::InvalidNumber),
        r.code@ != "UNSUPPORTED_PROFILE"@,
        !is_fragile_name(r.code@),
        r.severity@ == "error"@,
        r.span is None,
{
    proof {
        lemma_fragile_names(DiagnosticCode::InvalidNumber);
        lemma_unsupported_name(DiagnosticCode::InvalidNumber);
    }
    json_diagnostic(
        &Diagnostic {
            code: DiagnosticCode::InvalidNumber,
            severity: Severity::Error,
            message: "JSON numbers must be finite".to_owned(),
            span: None,
            related: Vec::new(),
        },
    )
}

/// The JSON diagnostics of a pipeline stage: none of them a fragility
/// warning.
fn push_diagnostics(out: &mut Vec<JsonDiagnostic>, diagnostics: &Vec<Diagnostic>, Ghost(lint): Ghost<bool>)
    requires
        forall|k: int| 0 <= k < diagnostics@.len() ==> !(#[trigger] diagnostics@[k]).code.is_fragile(),
        document_diagnostics_ok(old(out)@, lint),
    ensures
        document_diagnostics_ok(final(out)@, lint),
        final(out)@.len() == old(out)@.len() + diagnostics@.len(),
        forall|k: int| 0 <= k < old(out)@.len() ==> #[trigger] final(out)@[k] == old(out)@[k],
        forall|k: int| 0 <= k < diagnostics@.len() ==> json_diagnostic_of(diagnostics@[k], #[trigger] final(out)@[old(out)@.len() + k]),
        reports_unsupported(final(out)@) <==> (reports_unsupported(old(out)@) || has_unsupported(diagnostics@)),
{
    let ghost start = out@;
    let mut k: usize = 0;
    while k < diagnostics.len()
        invariant
            k <= diagnostics@.len(),
            out@.len() == start.len() + k,
            forall|t: int| 0 <= t < start.len() ==> #[trigger] out@[t] == start[t],
            forall|t: int| 0 <= t < k ==> json_diagnostic_of(diagnostics@[t], #[trigger] out@[start.len() + t]),
        forall|t: int| 0 <= t < diagnostics@.len() ==> !(#[trigger] diagnostics@[t]).code.is_fragile(),
        document_diagnostics_ok(out@, lint),
        decreases diagnostics@.len() - k,
    {
        let j = json_diagnostic(&diagnostics[k]);
        proof {
            lemma_fragile_names(diagnostics@[k as int].code);
        }
        out.push(j);
        k = k + 1;
    }
    proof {
        lemma_push_reports(start, diagnostics@, out@);
    }
}

fn push_lint(out: &mut Vec<JsonDiagnostic>, warnings: &Vec<Diagnostic>)
    requires
        forall|k: int| 0 <= k < warnings@.len() ==> crate::fragility::fragility_warning(#[trigger] warnings@[k]),
        document_diagnostics_ok(old(out)@, true),
    ensures
        document_diagnostics_ok(final(out)@, true),
        final(out)@.len() == old(out)@.len() + warnings@.len(),
        forall|k: int| 0 <= k < old(out)@.len() ==> #[trigger] final(out)@[k] == old(out)@[k],
        forall|k: int| 0 <= k < warnings@.len() ==> json_diagnostic_of(warnings@[k], #[trigger] final(out)@[old(out)@.len() + k]),
{
    let ghost start = out@;
    let mut k: usize = 0;
    while k < warnings.len()
        invariant
            k <= warnings@.len(),
            out@.len() == start.len() + k,
            forall|t: int| 0 <= t < start.len() ==> #[trigger] out@[t] == start[t],
            forall|t: int| 0 <= t < k ==> json_diagnostic_of(warnings@[t], #[trigger] out@[start.len() + t]),
        forall|t: int| 0 <= t < warnings@.len() ==> crate::fragility::fragility_warning(#[trigger] warnings@[t]),
        document_diagnostics_ok(out@, true),
        decreases warnings@.len() - k,
    {
        let j = json_diagnostic(&warnings[k]);
        out.push(j);
        k = k + 1;
    }
}

/// The JSON facts of the statements, noting whether any holds a number a
/// JSON number cannot hold.
fn push_facts(out: &mut Vec<JsonFact>, statements: &Vec<ExpandedStatement>, non_finite_seen: &mut bool)
    ensures
        final(out)@.len() == old(out)@.len() + statements@.len(),
        forall|k: int| 0 <= k < statements@.len() ==> json_fact_of(statements@[k], #[trigger] final(out)@[old(out)@.len() + k]),
        *final(non_finite_seen) == (*old(non_finite_seen) || exists|k: int| 0 <= k < statements@.len() && (non_finite(
            #[trigger] statements@[k].subject@,
        ) || non_finite(statements@[k].predicate@) || non_finite(statements@[k].object@))),
{
    let ghost start = out@;
    let mut k: usize = 0;
    while k < statements.len()
        invariant
            k <= statements@.len(),
            out@.len() == start.len() + k,
            forall|t: int| 0 <= t < k ==> json_fact_of(statements@[t], #[trigger] out@[start.len() + t]),
            *non_finite_seen == (*old(non_finite_seen) || exists|t: int| 0 <= t < k && (non_finite(
                #[trigger] statements@[t].subject@,
            ) || non_finite(statements@[t].predicate@) || non_finite(statements@[t].object@))),
        decreases statements@.len() - k,
    {
        let st = &statements[k];
        if is_non_finite(&st.subject) || is_non_finite(&st.predicate) || is_non_finite(&st.object) {
            *non_finite_seen = true;
        }
        out.push(json_fact(st));
        k = k + 1;
    }
}

} // verus!
