//! Diagnostics reported by parsing, expansion and resolution.
use vstd::prelude::*;

verus! {

/// A half-open range of UTF-8 byte offsets into the SnipX source.
#[derive(Debug, Clone, PartialEq, Eq, Structural)]
pub struct SourceSpan {
    pub start: usize,
    pub end: usize,
}

#[derive(Debug, Clone, Copy, PartialEq, Eq, Structural)]
pub enum Severity {
    Error,
    Warning,
}

#[derive(Debug, Clone, Copy, PartialEq, Eq, Structural)]
pub enum DiagnosticCode {
    ParseError,
    UnterminatedSnippet,
    UnterminatedString,
    UnterminatedBlockComment,
    UnterminatedIntralineaBlock,
    InvalidDirectivePosition,
    DuplicateDirective,
    InvalidLocalSubjectMarker,
    EmptyLocalSubject,
    InvalidCliUsage,
    MissingAmbientSubject,
    InvalidDecorationTarget,
    InvalidStatementTerminator,
    UnsupportedProfile,
    RawHtmlOmitted,
    InvalidSnippet,
    InvalidNumber,
    SnippetNotFound,
    SnippetAmbiguous,
    FragileShortAnchor,
    FragileNearDuplicate,
    FragileCaptureContext,
}

impl DiagnosticCode {
    /// The codes of the fragility lint.
    pub open spec fn is_fragile(self) -> bool {
        ||| self == DiagnosticCode::FragileShortAnchor
        ||| self == DiagnosticCode::FragileNearDuplicate
        ||| self == DiagnosticCode::FragileCaptureContext
    }
}

#[derive(Debug, Clone, PartialEq, Eq)]
pub struct RelatedSpan {
    pub message: String,
    pub span: SourceSpan,
}

#[derive(Debug, Clone, PartialEq, Eq)]
pub struct Diagnostic {
    pub code: DiagnosticCode,
    pub severity: Severity,
    pub message: String,
    pub span: Option<SourceSpan>,
    pub related: Vec<RelatedSpan>,
}

impl SourceSpan {
    pub fn duplicate(&self) -> (r: SourceSpan)
        ensures
            r == *self,
    {
        SourceSpan { start: self.start, end: self.end }
    }
}

pub fn copy_span(span: &Option<SourceSpan>) -> (r: Option<SourceSpan>)
    ensures
        r == *span,
{
    match span {
        Some(s) => Some(s.duplicate()),
        None => None,
    }
}

/// A diagnostic with no related spans.
pub fn new_diagnostic(code: DiagnosticCode, severity: Severity, message: String, span: Option<
    SourceSpan,
>) -> (r: Diagnostic)
    ensures
        r.code == code,
        r.severity == severity,
        r.message@ == message@,
        r.span == span,
        r.related@.len() == 0,
{
    Diagnostic { code, severity, message, span, related: Vec::new() }
}

impl RelatedSpan {
    pub fn duplicate(&self) -> (r: RelatedSpan)
        ensures
            r.message@ == self.message@,
            r.span == self.span,
    {
        RelatedSpan { message: self.message.clone(), span: self.span.duplicate() }
    }
}

/// The related spans seen as messages and spans.
pub open spec fn related_view(related: Seq<RelatedSpan>) -> Seq<(Seq<char>, SourceSpan)> {
    Seq::new(related.len(), |k: int| (related[k].message@, related[k].span))
}

impl Diagnostic {
    /// Whether two diagnostics say the same thing.
    pub open spec fn same(&self, other: &Diagnostic) -> bool {
        &&& self.code == other.code
        &&& self.severity == other.severity
        &&& self.message@ == other.message@
        &&& self.span == other.span
        &&& related_view(self.related@) == related_view(other.related@)
    }

    pub fn duplicate(&self) -> (r: Diagnostic)
        ensures
            r.same(self),
    {
        let mut related: Vec<RelatedSpan> = Vec::new();
        let mut k: usize = 0;
        while k < self.related.len()
            invariant
                k <= self.related@.len(),
                related@.len() == k,
                forall|t: int|
                    0 <= t < k ==> (#[trigger] related@[t]).message@ == self.related@[t].message@
                        && related@[t].span == self.related@[t].span,
            decreases self.related@.len() - k,
        {
            related.push(self.related[k].duplicate());
            k = k + 1;
        }
        assert(related_view(related@) =~= related_view(self.related@));
        Diagnostic {
            code: self.code,
            severity: self.severity,
            message: self.message.clone(),
            span: copy_span(&self.span),
            related,
        }
    }
}

/// Two lists of diagnostics say the same things, in the same order.
pub open spec fn same_diagnostics(a: Seq<Diagnostic>, b: Seq<Diagnostic>) -> bool {
    &&& a.len() == b.len()
    &&& forall|k: int| 0 <= k < a.len() ==> (#[trigger] a[k]).same(&b[k])
}

/// Copies a list of diagnostics.
pub fn copy_diagnostics(d: &[Diagnostic]) -> (r: Vec<Diagnostic>)
    ensures
        same_diagnostics(r@, d@),
{
    let mut r: Vec<Diagnostic> = Vec::new();
    let mut k: usize = 0;
    while k < d.len()
        invariant
            k <= d@.len(),
            r@.len() == k,
            forall|t: int| 0 <= t < k ==> (#[trigger] r@[t]).same(&d@[t]),
        decreases d@.len() - k,
    {
        r.push(d[k].duplicate());
        k = k + 1;
    }
    r
}

} // verus!
