//! Lint-only fragility analysis for resolved snippets.
//!
//! Snippet anchors are exact text matches, so edits to the target can
//! silently break or re-bind them. This module inspects already resolved
//! snippets and warns about anchors likely to fail under routine editing.
//! It reads the resolution result and only returns warnings.
use vstd::prelude::*;
use crate::diagnostic::{copy_span, Diagnostic, DiagnosticCode, Severity, SourceSpan};
use crate::expand::{ExpandedStatement, Value};
use crate::matching::{
    assemble_pattern, assemble_spec, capture_bounds, find_matches, match_snippet, matches_from,
    no_separator, normal_text, normalize, snippet_spans,
};
use crate::resolve::{ResolveResult, SnippetResolution};
use crate::snippet::{parts_view, PartView, SnippetPart, SnippetValue};
use crate::text::chars_of;
use crate::visible_text::{Profile, VisibleText};

verus! {

/// Anchors shorter than this many Unicode scalar values (measured on the
/// normalised needle) warn as `FRAGILE_SHORT_ANCHOR`: a typical word
/// ("Alice") passes while sub-word fragments ("Bob") warn.
pub const SHORT_ANCHOR_THRESHOLD: usize = 5;

/// The normalised lengths of the non-empty anchors among the parts from
/// `i` on; the current anchor began at `start`. Anchors are the runs
/// between range separators; one that does not assemble is skipped.
pub open spec fn anchor_lengths(parts: Seq<PartView>, i: int, start: int, loose: bool) -> Seq<int>
    decreases parts.len() - i,
{
    if i >= parts.len() || i < 0 {
        anchor_length(parts.subrange(start, parts.len() as int), loose)
    } else if parts[i] is RangeSeparator {
        anchor_length(parts.subrange(start, i), loose) + anchor_lengths(parts, i + 1, i + 1, loose)
    } else {
        anchor_lengths(parts, i + 1, start, loose)
    }
}

/// The normalised length of one anchor, when it assembles and is not
/// empty.
pub open spec fn anchor_length(anchor: Seq<PartView>, loose: bool) -> Seq<int> {
    match assemble_spec(anchor) {
        Some((pattern, _)) => {
            let n = normal_text(pattern, loose).len() as int;
            if n > 0 {
                seq![n]
            } else {
                Seq::empty()
            }
        },
        None => Seq::empty(),
    }
}

/// The smallest of the anchor lengths, if there is any.
pub open spec fn seq_min(s: Seq<int>) -> Option<int>
    decreases s.len(),
{
    if s.len() == 0 {
        None
    } else {
        match seq_min(s.drop_last()) {
            None => Some(s.last()),
            Some(m) => Some(
                if m <= s.last() {
                    m
                } else {
                    s.last()
                },
            ),
        }
    }
}

/// The normalised length of the weakest anchor of a snippet.
pub open spec fn shortest_anchor_spec(parts: Seq<PartView>, loose: bool) -> Option<int> {
    seq_min(anchor_lengths(parts, 0, 0, loose))
}

/// Whether the context on either side of a capture occurs at more
/// positions in the target than the snippet resolved to.
pub open spec fn capture_context_spec(parts: Seq<PartView>, resolved: int, text: Seq<char>, loose: bool) -> bool {
    if !no_separator(parts) {
        false
    } else {
        match assemble_spec(parts) {
            Some((pattern, Some((cs, ce)))) => {
                let haystack = normal_text(text, loose);
                let prefix = normal_text(pattern.subrange(0, cs), loose);
                let suffix = normal_text(pattern.subrange(ce, pattern.len() as int), loose);
                ||| (prefix.len() > 0 && matches_from(haystack, prefix, 0).len() > resolved)
                ||| (suffix.len() > 0 && matches_from(haystack, suffix, 0).len() > resolved)
            },
            _ => false,
        }
    }
}

/// The loose sibling of a strict profile; `None` when already loose.
pub open spec fn loose_variant_spec(profile: Profile) -> Option<Profile> {
    match profile {
        Profile::Plain => Some(Profile::PlainLoose),
        Profile::Markdown => Some(Profile::MarkdownLoose),
        _ => None,
    }
}

/// Whether re-matching under the loose sibling profile finds more spans
/// than the snippet resolved to.
pub open spec fn near_duplicate_spec(parts: Seq<PartView>, resolved: int, text: Seq<char>, profile: Profile) -> bool {
    match loose_variant_spec(profile) {
        Some(_) => match snippet_spans(parts, text, true) {
            Ok(spans) => spans.len() > resolved,
            Err(()) => false,
        },
        None => false,
    }
}

/// The warning codes one resolved snippet earns, in order.
pub open spec fn snippet_warnings(parts: Seq<PartView>, resolved: int, text: Seq<char>, profile: Profile) -> Seq<DiagnosticCode> {
    let loose = profile.is_loose_spec();
    (if shortest_anchor_spec(parts, loose) matches Some(n) && n < 5 {
        seq![DiagnosticCode::FragileShortAnchor]
    } else {
        Seq::empty()
    }) + (if near_duplicate_spec(parts, resolved, text, profile) {
        seq![DiagnosticCode::FragileNearDuplicate]
    } else {
        Seq::empty()
    }) + (if capture_context_spec(parts, resolved, text, loose) {
        seq![DiagnosticCode::FragileCaptureContext]
    } else {
        Seq::empty()
    })
}

/// The snippet that a value carries, if it is a snippet of either kind.
pub open spec fn snippet_of(value: Value) -> Option<SnippetValue> {
    match value {
        Value::Snippet(snippet) => Some(snippet),
        Value::TextSpanSnippet(snippet) => Some(snippet),
        _ => None,
    }
}

/// The first resolution from `q` on of the snippet `source` written at
/// `span`.
pub open spec fn first_resolution(
    resolutions: Seq<SnippetResolution>,
    source: Seq<char>,
    span: Option<SourceSpan>,
    q: int,
) -> Option<int>
    decreases resolutions.len() - q,
{
    if q < 0 || q >= resolutions.len() {
        None
    } else if resolutions[q].source_span == span && resolutions[q].source@ == source {
        Some(q)
    } else {
        first_resolution(resolutions, source, span, q + 1)
    }
}

/// What the analysis has seen so far (each snippet occurrence by its
/// source and span) and the warnings it gave, each by code and span.
pub struct FragilityView {
    pub seen: Seq<(Seq<char>, Option<SourceSpan>)>,
    pub warnings: Seq<(DiagnosticCode, Option<SourceSpan>)>,
}

/// One occurrence of a value at `span`: a snippet not seen before at that
/// span is noted, and when a resolution of it exists, the first one's
/// span count decides its warnings.
pub open spec fn occurrence_step(
    state: FragilityView,
    value: Value,
    span: Option<SourceSpan>,
    resolutions: Seq<SnippetResolution>,
    text: Seq<char>,
    profile: Profile,
) -> FragilityView {
    match snippet_of(value) {
        None => state,
        Some(snippet) => {
            let key = (snippet.source@, span);
            if state.seen.contains(key) {
                state
            } else {
                let warnings = match first_resolution(resolutions, snippet.source@, span, 0) {
                    None => state.warnings,
                    Some(q) => state.warnings + snippet_warnings(
                        parts_view(snippet.parts@),
                        resolutions[q].spans@.len() as int,
                        text,
                        profile,
                    ).map_values(|c: DiagnosticCode| (c, span)),
                };
                FragilityView { seen: state.seen.push(key), warnings }
            }
        },
    }
}

/// The analysis of the first `s` statements: each statement's subject,
/// then its object.
pub open spec fn fragility_fold(
    statements: Seq<ExpandedStatement>,
    s: int,
    resolutions: Seq<SnippetResolution>,
    text: Seq<char>,
    profile: Profile,
) -> FragilityView
    decreases s,
{
    if s <= 0 {
        FragilityView { seen: Seq::empty(), warnings: Seq::empty() }
    } else {
        let before = fragility_fold(statements, s - 1, resolutions, text, profile);
        let st = statements[s - 1];
        let after_subject = occurrence_step(before, st.subject, st.subject_span, resolutions, text, profile);
        occurrence_step(after_subject, st.object, st.object_span, resolutions, text, profile)
    }
}

/// Diagnostics read by code and span.
pub open spec fn codes_and_spans(d: Seq<Diagnostic>) -> Seq<(DiagnosticCode, Option<SourceSpan>)> {
    d.map_values(|x: Diagnostic| (x.code, x.span))
}

/// The seen occurrences read by source and span.
pub open spec fn seen_view(seen: Seq<(Vec<char>, Option<SourceSpan>)>) -> Seq<(Seq<char>, Option<SourceSpan>)> {
    seen.map_values(|e: (Vec<char>, Option<SourceSpan>)| (e.0@, e.1))
}

/// The diagnostic is located at the subject or object of one of the facts.
pub open spec fn at_snippet_occurrence(d: Diagnostic, statements: Seq<crate::expand::ExpandedStatement>) -> bool {
    exists|t: int|
        0 <= t < statements.len() && (d.span == statements[t].subject_span || d.span
            == statements[t].object_span)
}

/// A fragility warning.
pub open spec fn fragility_warning(d: Diagnostic) -> bool {
    d.severity == Severity::Warning && d.code.is_fragile()
}

/// The decimal digits of `n`.
pub open spec fn decimal_spec(n: nat) -> Seq<char>
    decreases n,
{
    if n < 10 {
        seq![((n + 48) as u8) as char]
    } else {
        decimal_spec(n / 10) + seq![((n % 10 + 48) as u8) as char]
    }
}

/// The decimal representation of `n`.
pub fn decimal(n: usize) -> (r: String)
    ensures
        r@ == decimal_spec(n as nat),
    decreases n,
{
    let digit = ((n % 10) as u8 + 48u8) as char;
    if n < 10 {
        let r = crate::text::string_of(&[digit]);
        assert([digit]@ =~= seq![digit]);
        r
    } else {
        let mut r = decimal(n / 10);
        let tail = crate::text::string_of(&[digit]);
        assert([digit]@ =~= seq![digit]);
        r.append(tail.as_str());
        r
    }
}

fn warning(code: DiagnosticCode, message: String, span: &Option<SourceSpan>) -> (r: Diagnostic)
    ensures
        r.code == code,
        r.severity == Severity::Warning,
        r.span == *span,
{
    Diagnostic { code, severity: Severity::Warning, message, span: copy_span(span), related: Vec::new() }
}

fn loose_variant(profile: Profile) -> (r: Option<Profile>)
    ensures
        r == loose_variant_spec(profile),
{
    match profile {
        Profile::Plain => Some(Profile::PlainLoose),
        Profile::Markdown => Some(Profile::MarkdownLoose),
        _ => None,
    }
}

proof fn lemma_anchor_lengths_skip(parts: Seq<PartView>, i: int, start: int, loose: bool)
    requires
        0 <= start <= i < parts.len(),
        !(parts[i] is RangeSeparator),
    ensures
        anchor_lengths(parts, i, start, loose) == anchor_lengths(parts, i + 1, start, loose),
{
}

/// The normalised length of one anchor, when it assembles and is not empty.
fn anchor_length_of(anchor: &[SnippetPart], loose: bool) -> (r: Option<usize>)
    requires
        no_separator(parts_view(anchor@)),
    ensures
        match r {
            Some(n) => anchor_length(parts_view(anchor@), loose) == seq![n as int],
            None => anchor_length(parts_view(anchor@), loose) == Seq::<int>::empty(),
        },
{
    match assemble_pattern(anchor) {
        Ok((pattern, _)) => {
            let n = normalize(pattern.as_slice(), loose).text.len();
            if n > 0 {
                Some(n)
            } else {
                None
            }
        },
        Err(_) => None,
    }
}

/// Normalised scalar length of the weakest anchor: the whole pattern for a
/// plain snippet, the shorter non-empty endpoint for a range. `None` when
/// every anchor is empty (whole-document forms) or invalid.
fn shortest_anchor(parts: &[SnippetPart], loose: bool) -> (r: Option<usize>)
    ensures
        match r {
            Some(n) => shortest_anchor_spec(parts_view(parts@), loose) == Some(n as int),
            None => shortest_anchor_spec(parts_view(parts@), loose) is None,
        },
{
    let ghost view = parts_view(parts@);
    let mut best: Option<usize> = None;
    let ghost mut found: Seq<int> = Seq::empty();
    let mut start: usize = 0;
    let mut i: usize = 0;
    while i < parts.len()
        invariant
            start <= i <= parts@.len(),
            view == parts_view(parts@),
            forall|t: int| start <= t < i ==> !(#[trigger] view[t] is RangeSeparator),
            found + anchor_lengths(view, i as int, start as int, loose) == anchor_lengths(view, 0, 0, loose),
            match best {
                Some(m) => seq_min(found) == Some(m as int),
                None => seq_min(found) is None,
            },
        decreases parts@.len() - i,
    {
        assert(view[i as int] == parts@[i as int]@);
        let is_sep = match &parts[i] {
            SnippetPart::RangeSeparator => true,
            _ => false,
        };
        if is_sep {
            let anchor = vstd::slice::slice_subrange(parts, start, i);
            assert(parts_view(anchor@) =~= view.subrange(start as int, i as int));
            let length = anchor_length_of(anchor, loose);
            let ghost piece = anchor_length(view.subrange(start as int, i as int), loose);
            let ghost before = found;
            proof {
                found = found + piece;
                assert(anchor_lengths(view, i as int, start as int, loose) == piece + anchor_lengths(view, i + 1, i + 1, loose));
                assert(found + anchor_lengths(view, i + 1, i + 1, loose) =~= before + (piece + anchor_lengths(view, i + 1, i + 1, loose)));
            }
            match length {
                Some(n) => {
                    assert(found.drop_last() =~= before);
                    best = match best {
                        None => Some(n),
                        Some(m) => Some(
                            if m <= n {
                                m
                            } else {
                                n
                            },
                        ),
                    };
                },
                None => {
                    assert(found =~= before);
                },
            }
            start = i + 1;
        } else {
            proof {
                lemma_anchor_lengths_skip(view, i as int, start as int, loose);
            }
        }
        i = i + 1;
    }
    let anchor = vstd::slice::slice_subrange(parts, start, parts.len());
    assert(parts_view(anchor@) =~= view.subrange(start as int, view.len() as int));
    let length = anchor_length_of(anchor, loose);
    let ghost before = found;
    proof {
        found = found + anchor_length(view.subrange(start as int, view.len() as int), loose);
    }
    match length {
        Some(n) => {
            assert(found.drop_last() =~= before);
            best = match best {
                None => Some(n),
                Some(m) => Some(
                    if m <= n {
                        m
                    } else {
                        n
                    },
                ),
            };
        },
        None => {
            assert(found =~= before);
        },
    }
    assert(found == anchor_lengths(view, 0, 0, loose));
    best
}


fn copy_char_range(a: &Vec<char>, from: usize, to: usize) -> (r: Vec<char>)
    requires
        from <= to <= a@.len(),
    ensures
        r@ == a@.subrange(from as int, to as int),
{
    let mut r: Vec<char> = Vec::new();
    let mut k = from;
    while k < to
        invariant
            from <= k <= to <= a@.len(),
            r@ == a@.subrange(from as int, k as int),
        decreases to - k,
    {
        r.push(a[k]);
        k = k + 1;
    }
    r
}

/// True when the context on either side of a capture occurs at more
/// positions in the target than the snippet resolved to.
fn capture_context_is_ambiguous(parts: &[SnippetPart], resolved_spans: usize, visible_text: &VisibleText, loose: bool) -> (r: bool)
    ensures
        r == capture_context_spec(parts_view(parts@), resolved_spans as int, visible_text.text@, loose),
{
    let ghost view = parts_view(parts@);
    let mut k: usize = 0;
    while k < parts.len()
        invariant
            k <= parts@.len(),
            view == parts_view(parts@),
            forall|t: int| 0 <= t < k ==> !(#[trigger] view[t] is RangeSeparator),
        decreases parts@.len() - k,
    {
        assert(view[k as int] == parts@[k as int]@);
        if let SnippetPart::RangeSeparator = &parts[k] {
            return false;
        }
        k = k + 1;
    }
    let (pattern, capture) = match assemble_pattern(parts) {
        Ok(assembled) => assembled,
        Err(_) => {
            return false;
        },
    };
    let (cs, ce) = match capture {
        Some(c) => c,
        None => {
            return false;
        },
    };
    let text = chars_of(visible_text.text.as_str());
    let haystack = normalize(text.as_slice(), loose);
    let prefix = copy_char_range(&pattern, 0, cs);
    let suffix = copy_char_range(&pattern, ce, pattern.len());
    let before = normalize(prefix.as_slice(), loose);
    if before.text.len() > 0 && find_matches(haystack.text.as_slice(), before.text.as_slice()).len() > resolved_spans {
        return true;
    }
    let after = normalize(suffix.as_slice(), loose);
    after.text.len() > 0 && find_matches(haystack.text.as_slice(), after.text.as_slice()).len() > resolved_spans
}

/// Checks one resolved snippet and appends its warnings.
fn analyse_snippet(
    snippet: &SnippetValue,
    span: &Option<SourceSpan>,
    resolved_spans: usize,
    visible_text: &VisibleText,
    profile: Profile,
    diagnostics: &mut Vec<Diagnostic>,
)
    ensures
        ({
            let w = snippet_warnings(parts_view(snippet.parts@), resolved_spans as int, visible_text.text@, profile);
            &&& final(diagnostics)@.len() == old(diagnostics)@.len() + w.len()
            &&& final(diagnostics)@.subrange(0, old(diagnostics)@.len() as int) == old(diagnostics)@
            &&& forall|k: int| 0 <= k < w.len() ==> {
                &&& (#[trigger] final(diagnostics)@[old(diagnostics)@.len() + k]).code == w[k]
                &&& final(diagnostics)@[old(diagnostics)@.len() + k].severity == Severity::Warning
                &&& final(diagnostics)@[old(diagnostics)@.len() + k].span == *span
            }
        }),
{
    let ghost start = diagnostics@;
    let ghost parts = parts_view(snippet.parts@);
    let loose = profile.is_loose();
    let ghost w1 = if shortest_anchor_spec(parts, loose) matches Some(n) && n < 5 {
        seq![DiagnosticCode::FragileShortAnchor]
    } else {
        Seq::empty()
    };
    if let Some(length) = shortest_anchor(snippet.parts.as_slice(), loose) {
        if length < SHORT_ANCHOR_THRESHOLD {
            let mut message = "Snippet anchor is shorter than 5 scalars (".to_owned();
            message.append(decimal(length).as_str());
            message.append(") and may break or re-bind under edits: ");
            message.append(snippet.source.as_str());
            diagnostics.push(warning(DiagnosticCode::FragileShortAnchor, message, span));
        }
    }
    assert(diagnostics@ =~= start + Seq::new(w1.len(), |k: int| diagnostics@[start.len() + k])) by {
        assert(diagnostics@.len() == start.len() + w1.len());
    }
    let ghost after1 = diagnostics@;
    let ghost w2 = if near_duplicate_spec(parts, resolved_spans as int, visible_text.text@, profile) {
        seq![DiagnosticCode::FragileNearDuplicate]
    } else {
        Seq::empty()
    };
    if let Some(loose_profile) = loose_variant(profile) {
        if let Ok(loose_spans) = match_snippet(snippet.parts.as_slice(), visible_text, loose_profile) {
            if loose_spans.len() > resolved_spans {
                let mut message = "Snippet matches ".to_owned();
                message.append(decimal(loose_spans.len()).as_str());
                message.append(" near-duplicate span(s) under loose normalisation but ");
                message.append(decimal(resolved_spans).as_str());
                message.append(" exactly; small typographic edits could re-bind it: ");
                message.append(snippet.source.as_str());
                diagnostics.push(warning(DiagnosticCode::FragileNearDuplicate, message, span));
            }
        }
    }
    assert(diagnostics@.len() == after1.len() + w2.len());
    let ghost after2 = diagnostics@;
    let ghost w3 = if capture_context_spec(parts, resolved_spans as int, visible_text.text@, loose) {
        seq![DiagnosticCode::FragileCaptureContext]
    } else {
        Seq::empty()
    };
    if capture_context_is_ambiguous(snippet.parts.as_slice(), resolved_spans, visible_text, loose) {
        let mut message = "Capture context also occurs elsewhere in the target; edits could re-bind the capture: ".to_owned();
        message.append(snippet.source.as_str());
        diagnostics.push(warning(DiagnosticCode::FragileCaptureContext, message, span));
    }
    assert(diagnostics@.len() == after2.len() + w3.len());
    let ghost w = snippet_warnings(parts, resolved_spans as int, visible_text.text@, profile);
    assert(w =~= w1 + w2 + w3);
    assert(diagnostics@.subrange(0, start.len() as int) =~= start);
    assert forall|k: int| 0 <= k < w.len() implies {
        &&& (#[trigger] diagnostics@[start.len() + k]).code == w[k]
        &&& diagnostics@[start.len() + k].severity == Severity::Warning
        &&& diagnostics@[start.len() + k].span == *span
    } by {
        if k < w1.len() {
            assert(diagnostics@[start.len() + k] == after1[start.len() + k]);
            assert(after2[start.len() + k] == after1[start.len() + k]);
        } else if k < w1.len() + w2.len() {
            assert(diagnostics@[start.len() + k] == after2[start.len() + k]);
        }
    }
}

fn same_chars(a: &Vec<char>, b: &Vec<char>) -> (r: bool)
    ensures
        r == (a@ == b@),
{
    if a.len() != b.len() {
        return false;
    }
    let mut k: usize = 0;
    while k < a.len()
        invariant
            a@.len() == b@.len(),
            k <= a@.len(),
            forall|t: int| 0 <= t < k ==> a@[t] == b@[t],
        decreases a@.len() - k,
    {
        if a[k] != b[k] {
            return false;
        }
        k = k + 1;
    }
    assert(a@ =~= b@);
    true
}

/// Analyses one snippet occurrence, unless it was seen before or did
/// not resolve.
fn analyse_occurrence(
    value: &Value,
    span: &Option<SourceSpan>,
    resolved: &ResolveResult,
    visible_text: &VisibleText,
    profile: Profile,
    seen: &mut Vec<(Vec<char>, Option<SourceSpan>)>,
    diagnostics: &mut Vec<Diagnostic>,
)
    ensures
        occurrence_step(
            FragilityView { seen: seen_view(old(seen)@), warnings: codes_and_spans(old(diagnostics)@) },
            *value,
            *span,
            resolved.resolutions@,
            visible_text.text@,
            profile,
        ) == (FragilityView { seen: seen_view(final(seen)@), warnings: codes_and_spans(final(diagnostics)@) }),
        final(diagnostics)@.len() >= old(diagnostics)@.len(),
        final(diagnostics)@.subrange(0, old(diagnostics)@.len() as int) == old(diagnostics)@,
        forall|k: int| old(diagnostics)@.len() <= k < final(diagnostics)@.len() ==> fragility_warning(#[trigger] final(diagnostics)@[k]) && final(diagnostics)@[k].span == *span,
{
    let ghost state = FragilityView { seen: seen_view(seen@), warnings: codes_and_spans(diagnostics@) };
    let snippet = match value {
        Value::Snippet(snippet) => snippet,
        Value::TextSpanSnippet(snippet) => snippet,
        _ => {
            assert(diagnostics@.subrange(0, diagnostics@.len() as int) =~= diagnostics@);
            return;
        },
    };
    let source = chars_of(snippet.source.as_str());
    let ghost key = (snippet.source@, *span);
    let mut t: usize = 0;
    while t < seen.len()
        invariant
            t <= seen@.len(),
            diagnostics@ == old(diagnostics)@,
            seen@ == old(seen)@,
            source@ == snippet.source@,
            key == (snippet.source@, *span),
            snippet_of(*value) == Some(*snippet),
            forall|u: int| 0 <= u < t ==> seen_view(seen@)[u] != key,
        decreases seen@.len() - t,
    {
        assert(seen_view(seen@)[t as int] == (seen@[t as int].0@, seen@[t as int].1));
        if same_chars(&seen[t].0, &source) && seen[t].1 == *span {
            assert(seen_view(seen@)[t as int] == key);
            assert(seen_view(old(seen)@).contains(key));
            assert(diagnostics@.subrange(0, diagnostics@.len() as int) =~= diagnostics@);
            return;
        }
        t = t + 1;
    }
    assert(!state.seen.contains(key));
    seen.push((copy_char_range(&source, 0, source.len()), copy_span(span)));
    proof {
        assert(source@.subrange(0, source@.len() as int) =~= source@);
        assert(seen_view(seen@) =~= state.seen.push(key));
    }
    let mut q: usize = 0;
    while q < resolved.resolutions.len()
        invariant
            q <= resolved.resolutions@.len(),
            diagnostics@ == old(diagnostics)@,
            source@ == snippet.source@,
            snippet_of(*value) == Some(*snippet),
            !seen_view(old(seen)@).contains((snippet.source@, *span)),
            seen_view(seen@) == seen_view(old(seen)@).push((snippet.source@, *span)),
            first_resolution(resolved.resolutions@, source@, *span, 0) == first_resolution(
                resolved.resolutions@,
                source@,
                *span,
                q as int,
            ),
        decreases resolved.resolutions@.len() - q,
    {
        if resolved.resolutions[q].source_span == *span && same_chars(
            &chars_of(resolved.resolutions[q].source.as_str()),
            &source,
        ) {
            let ghost before = diagnostics@;
            analyse_snippet(snippet, span, resolved.resolutions[q].spans.len(), visible_text, profile, diagnostics);
            proof {
                let w = snippet_warnings(parts_view(snippet.parts@), resolved.resolutions@[q as int].spans@.len() as int, visible_text.text@, profile);
                assert forall|k: int| before.len() <= k < diagnostics@.len() implies fragility_warning(#[trigger] diagnostics@[k]) && diagnostics@[k].span == *span by {
                    let j = k - before.len();
                    assert(diagnostics@[before.len() + j].code == w[j]);
                }
                assert forall|k: int| 0 <= k < before.len() implies diagnostics@[k] == before[k] by {
                    assert(diagnostics@.subrange(0, before.len() as int)[k] == diagnostics@[k]);
                }
                assert(codes_and_spans(diagnostics@) =~= codes_and_spans(before) + w.map_values(|c: DiagnosticCode| (c, *span))) by {
                    assert forall|k: int| before.len() <= k < diagnostics@.len() implies codes_and_spans(diagnostics@)[k] == w.map_values(|c: DiagnosticCode| (c, *span))[k - before.len()] by {
                        let j = k - before.len();
                        assert(diagnostics@[before.len() + j].code == w[j]);
                    }
                }
            }
            return;
        }
        q = q + 1;
    }
    assert(diagnostics@.subrange(0, diagnostics@.len() as int) =~= diagnostics@);
}

/// Analyses the resolved snippets for fragility under target edits. Each
/// snippet occurrence (its source at its source span) is analysed once,
/// and only snippets that resolved are analysed.
pub fn analyse_fragility(resolved: &ResolveResult, visible_text: &VisibleText, profile: Profile) -> (r: Vec<Diagnostic>)
    ensures
        codes_and_spans(r@) == fragility_fold(
            resolved.statements@,
            resolved.statements@.len() as int,
            resolved.resolutions@,
            visible_text.text@,
            profile,
        ).warnings,
        forall|k: int| 0 <= k < r@.len() ==> fragility_warning(#[trigger] r@[k]),
        forall|k: int| 0 <= k < r@.len() ==> at_snippet_occurrence(#[trigger] r@[k], resolved.statements@),
{
    let mut diagnostics: Vec<Diagnostic> = Vec::new();
    let mut seen: Vec<(Vec<char>, Option<SourceSpan>)> = Vec::new();
    let mut s: usize = 0;
    proof {
        assert(seen_view(seen@) =~= Seq::<(Seq<char>, Option<SourceSpan>)>::empty());
        assert(codes_and_spans(diagnostics@) =~= Seq::<(DiagnosticCode, Option<SourceSpan>)>::empty());
    }
    while s < resolved.statements.len()
        invariant
            s <= resolved.statements@.len(),
            fragility_fold(resolved.statements@, s as int, resolved.resolutions@, visible_text.text@, profile)
                == (FragilityView { seen: seen_view(seen@), warnings: codes_and_spans(diagnostics@) }),
            forall|k: int| 0 <= k < diagnostics@.len() ==> fragility_warning(#[trigger] diagnostics@[k]),
            forall|k: int| 0 <= k < diagnostics@.len() ==> at_snippet_occurrence(#[trigger] diagnostics@[k], resolved.statements@),
        decreases resolved.statements@.len() - s,
    {
        let statement = &resolved.statements[s];
        let ghost d0 = diagnostics@;
        analyse_occurrence(&statement.subject, &statement.subject_span, resolved, visible_text, profile, &mut seen, &mut diagnostics);
        let ghost d1 = diagnostics@;
        analyse_occurrence(&statement.object, &statement.object_span, resolved, visible_text, profile, &mut seen, &mut diagnostics);
        proof {
            assert forall|k: int| 0 <= k < diagnostics@.len() implies fragility_warning(#[trigger] diagnostics@[k]) && at_snippet_occurrence(diagnostics@[k], resolved.statements@) by {
                if k < d1.len() {
                    assert(diagnostics@[k] == diagnostics@.subrange(0, d1.len() as int)[k]);
                    if k < d0.len() {
                        assert(d1[k] == d1.subrange(0, d0.len() as int)[k]);
                    } else {
                        assert(d1[k].span == resolved.statements@[s as int].subject_span);
                    }
                } else {
                    assert(diagnostics@[k].span == resolved.statements@[s as int].object_span);
                }
            }
        }
        s = s + 1;
    }
    diagnostics
}

/// Under a loose profile there is nothing looser to compare with: the
/// analysis gives no near-duplicate warning.
pub proof fn lemma_loose_profiles_give_no_near_duplicates(
    statements: Seq<ExpandedStatement>,
    s: int,
    resolutions: Seq<SnippetResolution>,
    text: Seq<char>,
    profile: Profile,
)
    requires
        profile.is_loose_spec(),
    ensures
        forall|k: int|
            0 <= k < fragility_fold(statements, s, resolutions, text, profile).warnings.len() ==> (#[trigger] fragility_fold(
                statements,
                s,
                resolutions,
                text,
                profile,
            ).warnings[k]).0 != DiagnosticCode::FragileNearDuplicate,
    decreases s,
{
    if s > 0 {
        lemma_loose_profiles_give_no_near_duplicates(statements, s - 1, resolutions, text, profile);
        let before = fragility_fold(statements, s - 1, resolutions, text, profile);
        let st = statements[s - 1];
        lemma_occurrence_no_near_duplicate(before, st.subject, st.subject_span, resolutions, text, profile);
        let mid = occurrence_step(before, st.subject, st.subject_span, resolutions, text, profile);
        lemma_occurrence_no_near_duplicate(mid, st.object, st.object_span, resolutions, text, profile);
    }
}

proof fn lemma_occurrence_no_near_duplicate(
    state: FragilityView,
    value: Value,
    span: Option<SourceSpan>,
    resolutions: Seq<SnippetResolution>,
    text: Seq<char>,
    profile: Profile,
)
    requires
        profile.is_loose_spec(),
        forall|k: int| 0 <= k < state.warnings.len() ==> (#[trigger] state.warnings[k]).0 != DiagnosticCode::FragileNearDuplicate,
    ensures
        forall|k: int|
            0 <= k < occurrence_step(state, value, span, resolutions, text, profile).warnings.len() ==> (
            #[trigger] occurrence_step(state, value, span, resolutions, text, profile).warnings[k]).0
                != DiagnosticCode::FragileNearDuplicate,
{
    let next = occurrence_step(state, value, span, resolutions, text, profile);
    if let Some(snippet) = snippet_of(value) {
        if !state.seen.contains((snippet.source@, span)) {
            if let Some(q) = first_resolution(resolutions, snippet.source@, span, 0) {
                let w = snippet_warnings(parts_view(snippet.parts@), resolutions[q].spans@.len() as int, text, profile);
                assert(!near_duplicate_spec(parts_view(snippet.parts@), resolutions[q].spans@.len() as int, text, profile));
                assert forall|k: int| 0 <= k < w.len() implies w[k] != DiagnosticCode::FragileNearDuplicate by {}
                assert forall|k: int| 0 <= k < next.warnings.len() implies (#[trigger] next.warnings[k]).0
                    != DiagnosticCode::FragileNearDuplicate by {
                    if k >= state.warnings.len() {
                        assert(next.warnings[k].0 == w[k - state.warnings.len()]);
                    }
                }
            }
        }
    }
}


/// A snippet with a capture earns the capture-context warning exactly when
/// the text on either side of its capture, normalised and not empty,
/// occurs in the normalised target more often than the snippet resolved:
/// the context after the capture counts as much as the context before it.
pub proof fn lemma_capture_context_on_either_side(
    parts: Seq<PartView>,
    resolved: int,
    text: Seq<char>,
    profile: Profile,
)
    requires
        no_separator(parts),
        assemble_spec(parts) matches Some((_, Some(_))),
    ensures
        ({
            let loose = profile.is_loose_spec();
            let pattern = assemble_spec(parts)->Some_0.0;
            let (cs, ce) = assemble_spec(parts)->Some_0.1->Some_0;
            let haystack = normal_text(text, loose);
            let before = normal_text(pattern.subrange(0, cs), loose);
            let after = normal_text(pattern.subrange(ce, pattern.len() as int), loose);
            snippet_warnings(parts, resolved, text, profile).contains(DiagnosticCode::FragileCaptureContext)
                <==> ((before.len() > 0 && matches_from(haystack, before, 0).len() > resolved) || (after.len()
                > 0 && matches_from(haystack, after, 0).len() > resolved))
        }),
{
    let loose = profile.is_loose_spec();
    let a: Seq<DiagnosticCode> = if shortest_anchor_spec(parts, loose) matches Some(n) && n < 5 {
        seq![DiagnosticCode::FragileShortAnchor]
    } else {
        Seq::empty()
    };
    let b: Seq<DiagnosticCode> = if near_duplicate_spec(parts, resolved, text, profile) {
        seq![DiagnosticCode::FragileNearDuplicate]
    } else {
        Seq::empty()
    };
    let c: Seq<DiagnosticCode> = if capture_context_spec(parts, resolved, text, loose) {
        seq![DiagnosticCode::FragileCaptureContext]
    } else {
        Seq::empty()
    };
    let w = snippet_warnings(parts, resolved, text, profile);
    assert(w == a + b + c);
    if capture_context_spec(parts, resolved, text, loose) {
        assert(w[w.len() - 1] == DiagnosticCode::FragileCaptureContext);
    } else {
        assert(w == a + b);
        if w.contains(DiagnosticCode::FragileCaptureContext) {
            let k = choose|k: int| 0 <= k < w.len() && w[k] == DiagnosticCode::FragileCaptureContext;
            if k < a.len() {
                assert(w[k] == a[k]);
            } else {
                assert(w[k] == b[k - a.len()]);
            }
        }
    }
}


/// The smallest element is below a bound exactly when some element is.
proof fn lemma_seq_min_below(s: Seq<int>, bound: int)
    ensures
        (seq_min(s) matches Some(m) && m < bound) <==> exists|k: int| 0 <= k < s.len() && #[trigger] s[k] < bound,
    decreases s.len(),
{
    if s.len() > 0 {
        let init = s.drop_last();
        lemma_seq_min_below(init, bound);
        if exists|k: int| 0 <= k < s.len() && #[trigger] s[k] < bound {
            let k = choose|k: int| 0 <= k < s.len() && #[trigger] s[k] < bound;
            if k < s.len() - 1 {
                assert(init[k] == s[k]);
            }
        }
        if exists|k: int| 0 <= k < init.len() && #[trigger] init[k] < bound {
            let k = choose|k: int| 0 <= k < init.len() && #[trigger] init[k] < bound;
            assert(s[k] == init[k]);
        }
    }
}

/// A snippet earns the short-anchor warning exactly when one of its
/// anchors, normalised, is shorter than five characters.
pub proof fn lemma_short_anchor_warning(parts: Seq<PartView>, resolved: int, text: Seq<char>, profile: Profile)
    ensures
        ({
            let lengths = anchor_lengths(parts, 0, 0, profile.is_loose_spec());
            snippet_warnings(parts, resolved, text, profile).contains(DiagnosticCode::FragileShortAnchor)
                <==> exists|k: int| 0 <= k < lengths.len() && #[trigger] lengths[k] < 5
        }),
{
    let loose = profile.is_loose_spec();
    lemma_seq_min_below(anchor_lengths(parts, 0, 0, loose), 5);
    let short = shortest_anchor_spec(parts, loose) matches Some(n) && n < 5;
    let a: Seq<DiagnosticCode> = if short {
        seq![DiagnosticCode::FragileShortAnchor]
    } else {
        Seq::empty()
    };
    let b: Seq<DiagnosticCode> = if near_duplicate_spec(parts, resolved, text, profile) {
        seq![DiagnosticCode::FragileNearDuplicate]
    } else {
        Seq::empty()
    };
    let c: Seq<DiagnosticCode> = if capture_context_spec(parts, resolved, text, loose) {
        seq![DiagnosticCode::FragileCaptureContext]
    } else {
        Seq::empty()
    };
    let w = snippet_warnings(parts, resolved, text, profile);
    assert(w == a + b + c);
    if short {
        assert(w[0] == DiagnosticCode::FragileShortAnchor);
    } else if w.contains(DiagnosticCode::FragileShortAnchor) {
        let k = choose|k: int| 0 <= k < w.len() && w[k] == DiagnosticCode::FragileShortAnchor;
        assert(w == b + c);
        if k < b.len() {
            assert(w[k] == b[k]);
        } else {
            assert(w[k] == c[k - b.len()]);
        }
    }
}

} // verus!
