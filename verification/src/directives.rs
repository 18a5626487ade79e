//! Header directives (`@profile`, `@target`) of a commentaria document:
//! the directives before its first statement. The first occurrence of
//! each wins; later ones are reported as duplicates.
use vstd::prelude::*;
use crate::ast::Root;
use crate::diagnostic::{Diagnostic, DiagnosticCode, Severity, SourceSpan};
use crate::expand::{node_text_spec, strip_angles};
use crate::syntax::SyntaxKind;
use crate::text::{append_range, chars_of, string_of, utf8_len};
use crate::tree::{indices_of, node_span, selection, start_kind, SyntaxNode, SyntaxTree};

verus! {

/// A header directive's value and where the directive stands.
#[derive(Debug, Clone, PartialEq, Eq)]
pub struct HeaderDirective {
    pub value: String,
    pub span: SourceSpan,
}

/// The effective header directives of a document.
#[derive(Debug, Clone, PartialEq, Eq)]
pub struct HeaderDirectives {
    pub profile: Option<HeaderDirective>,
    pub target: Option<HeaderDirective>,
    pub diagnostics: Vec<Diagnostic>,
}

/// Every diagnostic is a located duplicate-directive warning.
pub open spec fn duplicate_warnings(diagnostics: Seq<Diagnostic>, total: int) -> bool {
    forall|k: int|
        0 <= k < diagnostics.len() ==> {
            &&& (#[trigger] diagnostics[k]).code == DiagnosticCode::DuplicateDirective
            &&& diagnostics[k].severity == Severity::Warning
            &&& diagnostics[k].span matches Some(s) && s.start <= s.end <= total
        }
}

/// The value of directive `j`: the text of its first child of `kind`,
/// angle brackets stripped from a URI.
pub open spec fn directive_value_spec(tree: &SyntaxTree, j: int, kind: SyntaxKind) -> Option<Seq<char>> {
    let values = selection(tree.events@, j, seq![kind], false);
    if values.len() == 0 {
        None
    } else {
        let text = node_text_spec(tree, values[0] as int);
        Some(
            if kind == SyntaxKind::Uri {
                strip_angles(text)
            } else {
                text
            },
        )
    }
}

/// What reading header directives has gathered so far.
pub struct HeaderView {
    pub profile: Option<(Seq<char>, SourceSpan)>,
    pub target: Option<(Seq<char>, SourceSpan)>,
    pub profile_seen: bool,
    pub target_seen: bool,
    pub duplicates: Seq<SourceSpan>,
}

/// Reading the root's statement and directive children `items[k..]` up
/// to the first statement: the first `@profile` and the first `@target`
/// apply, every later one is a duplicate.
pub open spec fn header_from(tree: &SyntaxTree, items: Seq<usize>, k: int, acc: HeaderView) -> HeaderView
    decreases items.len() - k,
{
    if k < 0 || k >= items.len() {
        acc
    } else {
        let j = items[k] as int;
        let kind = start_kind(tree.events@[j]);
        if kind == SyntaxKind::Statement {
            acc
        } else {
            let span = node_span(tree, j);
            let is_profile = kind == SyntaxKind::ProfileDirective;
            let seen = if is_profile {
                acc.profile_seen
            } else {
                acc.target_seen
            };
            let next = if seen {
                HeaderView {
                    profile: acc.profile,
                    target: acc.target,
                    profile_seen: acc.profile_seen,
                    target_seen: acc.target_seen,
                    duplicates: acc.duplicates.push(span),
                }
            } else if is_profile {
                HeaderView {
                    profile: Some(
                        (
                            match directive_value_spec(tree, j, SyntaxKind::Identifier) {
                                Some(v) => v,
                                None => Seq::empty(),
                            },
                            span,
                        ),
                    ),
                    target: acc.target,
                    profile_seen: true,
                    target_seen: acc.target_seen,
                    duplicates: acc.duplicates,
                }
            } else {
                HeaderView {
                    profile: acc.profile,
                    target: match directive_value_spec(tree, j, SyntaxKind::Uri) {
                        Some(v) => Some((v, span)),
                        None => None,
                    },
                    profile_seen: acc.profile_seen,
                    target_seen: true,
                    duplicates: acc.duplicates,
                }
            };
            header_from(tree, items, k + 1, next)
        }
    }
}

pub open spec fn directive_view(d: Option<HeaderDirective>) -> Option<(Seq<char>, SourceSpan)> {
    match d {
        Some(x) => Some((x.value@, x.span)),
        None => None,
    }
}

pub open spec fn spans_of_diagnostics(diagnostics: Seq<Diagnostic>) -> Seq<Option<SourceSpan>> {
    diagnostics.map_values(|d: Diagnostic| d.span)
}

pub open spec fn some_spans(spans: Seq<SourceSpan>) -> Seq<Option<SourceSpan>> {
    spans.map_values(|s: SourceSpan| Some(s))
}

/// The value of a directive: the text of its first child value node of
/// `kind` (angle brackets stripped from a URI).
fn directive_value(directive: &SyntaxNode, kind: SyntaxKind) -> (r: Option<String>)
    requires
        directive.valid(),
    ensures
        match directive_value_spec(directive.tree, directive.index as int, kind) {
            Some(v) => r matches Some(x) && x@ == v,
            None => r is None,
        },
{
    let kinds = [kind];
    assert(kinds@ =~= seq![kind]);
    let values = directive.children_of(&kinds);
    if values.len() == 0 {
        return None;
    }
    assert(indices_of(values@)[0] == values@[0].index);
    let text = chars_of(values[0].text().as_str());
    if kind == SyntaxKind::Uri && text.len() >= 2 && text[0] == '<' && text[text.len() - 1] == '>' {
        let mut inner: Vec<char> = Vec::new();
        append_range(&mut inner, text.as_slice(), 1, text.len() - 1);
        return Some(string_of(inner.as_slice()));
    }
    Some(string_of(text.as_slice()))
}

impl<'a> Root<'a> {
    /// The `@profile` and `@target` directives before the first statement.
    pub fn header_directives(&self) -> (r: HeaderDirectives)
        requires
            self.syntax.valid(),
        ensures
            duplicate_warnings(r.diagnostics@, utf8_len(self.syntax.tree.source@) as int),
            r.profile matches Some(d) ==> d.span.start <= d.span.end <= utf8_len(self.syntax.tree.source@),
            r.target matches Some(d) ==> d.span.start <= d.span.end <= utf8_len(self.syntax.tree.source@),
            ({
                let header = header_from(
                    self.syntax.tree,
                    selection(
                        self.syntax.tree.events@,
                        self.syntax.index as int,
                        seq![SyntaxKind::Statement, SyntaxKind::TargetDirective, SyntaxKind::ProfileDirective],
                        false,
                    ),
                    0,
                    HeaderView { profile: None, target: None, profile_seen: false, target_seen: false, duplicates: Seq::empty() },
                );
                &&& directive_view(r.profile) == header.profile
                &&& directive_view(r.target) == header.target
                &&& spans_of_diagnostics(r.diagnostics@) == some_spans(header.duplicates)
            }),
    {
        let ghost total = utf8_len(self.syntax.tree.source@) as int;
        let item_kinds = [SyntaxKind::Statement, SyntaxKind::TargetDirective, SyntaxKind::ProfileDirective];
        assert(item_kinds@ =~= seq![SyntaxKind::Statement, SyntaxKind::TargetDirective, SyntaxKind::ProfileDirective]);
        let children = self.syntax.children_of(&item_kinds);
        let ghost items = indices_of(children@);
        let ghost goal = header_from(
            self.syntax.tree,
            items,
            0,
            HeaderView { profile: None, target: None, profile_seen: false, target_seen: false, duplicates: Seq::empty() },
        );
        let mut profile: Option<HeaderDirective> = None;
        let mut target: Option<HeaderDirective> = None;
        let mut profile_seen = false;
        let mut target_seen = false;
        let mut diagnostics: Vec<Diagnostic> = Vec::new();
        assert(Seq::new(diagnostics@.len(), |t: int| diagnostics@[t].span->Some_0) =~= Seq::<SourceSpan>::empty());
        let mut k: usize = 0;
        while k < children.len()
            invariant
                k <= children@.len(),
                total == utf8_len(self.syntax.tree.source@) as int,
                forall|t: int|
                    0 <= t < children@.len() ==> (#[trigger] children@[t]).tree == self.syntax.tree
                        && children@[t].valid(),
                duplicate_warnings(diagnostics@, total),
                profile matches Some(d) ==> d.span.start <= d.span.end <= total,
                target matches Some(d) ==> d.span.start <= d.span.end <= total,
                items == indices_of(children@),
                header_from(
                    self.syntax.tree,
                    items,
                    k as int,
                    HeaderView {
                        profile: directive_view(profile),
                        target: directive_view(target),
                        profile_seen,
                        target_seen,
                        duplicates: Seq::new(diagnostics@.len(), |t: int| diagnostics@[t].span->Some_0),
                    },
                ) == goal,
                forall|t: int| 0 <= t < diagnostics@.len() ==> (#[trigger] diagnostics@[t]).span is Some,
            ensures
                header_from(
                    self.syntax.tree,
                    items,
                    k as int,
                    HeaderView {
                        profile: directive_view(profile),
                        target: directive_view(target),
                        profile_seen,
                        target_seen,
                        duplicates: Seq::new(diagnostics@.len(), |t: int| diagnostics@[t].span->Some_0),
                    },
                ) == (HeaderView {
                    profile: directive_view(profile),
                    target: directive_view(target),
                    profile_seen,
                    target_seen,
                    duplicates: Seq::new(diagnostics@.len(), |t: int| diagnostics@[t].span->Some_0),
                }),
            decreases children@.len() - k,
        {
            let child = &children[k];
            assert(items[k as int] == child.index);
            let ghost acc = HeaderView {
                profile: directive_view(profile),
                target: directive_view(target),
                profile_seen,
                target_seen,
                duplicates: Seq::new(diagnostics@.len(), |t: int| diagnostics@[t].span->Some_0),
            };
            let kind = child.kind();
            if kind == SyntaxKind::Statement {
                break;
            }
            let span = child.source_span();
            let is_profile = kind == SyntaxKind::ProfileDirective;
            let seen = if is_profile {
                profile_seen
            } else {
                target_seen
            };
            if seen {
                let message = if is_profile {
                    "Duplicate @profile directive; the first one applies".to_owned()
                } else {
                    "Duplicate @target directive; the first one applies".to_owned()
                };
                diagnostics.push(
                    Diagnostic {
                        code: DiagnosticCode::DuplicateDirective,
                        severity: Severity::Warning,
                        message,
                        span: Some(span),
                        related: Vec::new(),
                    },
                );
            } else if is_profile {
                profile_seen = true;
                profile = match directive_value(child, SyntaxKind::Identifier) {
                    Some(value) => Some(HeaderDirective { value, span }),
                    None => Some(HeaderDirective { value: String::new(), span }),
                };
            } else {
                target_seen = true;
                target = match directive_value(child, SyntaxKind::Uri) {
                    Some(value) => Some(HeaderDirective { value, span }),
                    None => None,
                };
            }
            proof {
                let next = HeaderView {
                    profile: directive_view(profile),
                    target: directive_view(target),
                    profile_seen,
                    target_seen,
                    duplicates: Seq::new(diagnostics@.len(), |t: int| diagnostics@[t].span->Some_0),
                };
                if seen {
                    assert(next.duplicates =~= acc.duplicates.push(span));
                } else {
                    assert(next.duplicates =~= acc.duplicates);
                }
                assert(header_from(self.syntax.tree, items, k as int, acc) == header_from(self.syntax.tree, items, k + 1, next));
            }
            k = k + 1;
        }
        proof {
            assert(spans_of_diagnostics(diagnostics@) =~= some_spans(
                Seq::new(diagnostics@.len(), |t: int| diagnostics@[t].span->Some_0),
            ));
        }
        HeaderDirectives { profile, target, diagnostics }
    }
}

} // verus!
