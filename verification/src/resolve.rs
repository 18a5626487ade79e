//! Resolution of expanded facts against a target's visible text: snippets
//! are matched and checked against their cardinality, text-span snippets
//! distribute one fact per matched span, and local subject markers select
//! the sentence or paragraph around their block.
use vstd::prelude::*;
use crate::diagnostic::{copy_diagnostics, copy_span, same_diagnostics, Diagnostic, DiagnosticCode, Severity, SourceSpan};
use crate::expand::{ExpandResult, ExpandedStatement, LocalRegion, LocalScope, LocalSubject, Value, ValueView};
use crate::matching::{match_snippet, snippet_spans, spans_view, TextSpan};
use crate::snippet::{Cardinality, SnippetView};
use crate::text::{chars_of, is_ws, is_ws_spec};
use crate::visible_text::{Profile, VisibleText};

verus! {

#[derive(Debug, Clone, PartialEq, Eq)]
pub struct ResolveOptions {
    pub profile: Option<Profile>,
    /// Visible-text anchor for each intralinea block, used to resolve
    /// local subject markers. `visible_offset` counts Unicode scalar
    /// values into the NFC visible text at the block's position.
    pub intralinea_anchors: Vec<IntralineaAnchor>,
}

impl Default for ResolveOptions {
    fn default() -> (r: ResolveOptions)
        ensures
            r.profile is None,
            r.intralinea_anchors@.len() == 0,
    {
        ResolveOptions { profile: None, intralinea_anchors: Vec::new() }
    }
}

#[derive(Debug, Clone, PartialEq, Eq)]
pub struct IntralineaAnchor {
    pub block_span: SourceSpan,
    pub visible_offset: usize,
}

#[derive(Debug, Clone, PartialEq, Eq)]
pub struct SnippetResolution {
    pub source: String,
    pub source_span: Option<SourceSpan>,
    pub spans: Vec<TextSpan>,
}

#[derive(Debug, Clone, PartialEq)]
pub struct ResolveResult {
    pub statements: Vec<ExpandedStatement>,
    pub resolutions: Vec<SnippetResolution>,
    pub diagnostics: Vec<Diagnostic>,
}

pub open spec fn is_terminator_spec(c: char) -> bool {
    c == '.' || c == '?' || c == '!'
}

/// A sentence boundary is `.`, `?`, or `!` followed by whitespace or the
/// end of the text.
pub open spec fn is_boundary_spec(chars: Seq<char>, i: int) -> bool {
    &&& 0 <= i < chars.len()
    &&& is_terminator_spec(chars[i])
    &&& (i + 1 >= chars.len() || is_ws_spec(chars[i + 1]))
}

/// The position before the whitespace that ends at `pos`.
pub open spec fn skip_back_spec(chars: Seq<char>, pos: int) -> int
    decreases pos,
{
    if pos > 0 && pos <= chars.len() && is_ws_spec(chars[pos - 1]) {
        skip_back_spec(chars, pos - 1)
    } else {
        pos
    }
}

/// The position after the whitespace that starts at `pos`.
pub open spec fn skip_forward_spec(chars: Seq<char>, pos: int) -> int
    decreases chars.len() - pos,
{
    if 0 <= pos < chars.len() && is_ws_spec(chars[pos]) {
        skip_forward_spec(chars, pos + 1)
    } else {
        pos
    }
}

/// Just past the first sentence boundary at or after `from`, or the end of
/// the text.
pub open spec fn sentence_end_spec(chars: Seq<char>, from: int) -> int
    decreases chars.len() - from,
{
    if from >= chars.len() || from < 0 {
        chars.len() as int
    } else if is_boundary_spec(chars, from) {
        from + 1
    } else {
        sentence_end_spec(chars, from + 1)
    }
}

/// Just past the last sentence boundary before `index`, or 0.
pub open spec fn sentence_start_spec(chars: Seq<char>, index: int) -> int
    decreases index,
{
    if index <= 0 {
        0
    } else if is_boundary_spec(chars, index - 1) {
        index
    } else {
        sentence_start_spec(chars, index - 1)
    }
}

/// The sentence a local subject marker at `anchor` selects.
pub open spec fn sentence_span_spec(chars: Seq<char>, anchor: int, region: LocalRegion) -> (int, int) {
    let anchor = if anchor < chars.len() {
        anchor
    } else {
        chars.len() as int
    };
    if region == LocalRegion::After {
        let start = skip_forward_spec(chars, anchor);
        (start, sentence_end_spec(chars, start))
    } else {
        let attach = skip_back_spec(chars, anchor);
        let ends_at_attach = attach > 0 && is_terminator_spec(chars[attach - 1]);
        let scan_from = if ends_at_attach {
            attach - 1
        } else {
            attach
        };
        let first = skip_forward_spec(chars, sentence_start_spec(chars, scan_from));
        let start = if first < attach {
            first
        } else {
            attach
        };
        let end = if region == LocalRegion::Before || ends_at_attach {
            attach
        } else {
            sentence_end_spec(chars, attach)
        };
        (start, end)
    }
}

fn is_terminator(c: char) -> (r: bool)
    ensures
        r == is_terminator_spec(c),
{
    c == '.' || c == '?' || c == '!'
}

fn is_sentence_boundary(chars: &[char], index: usize) -> (r: bool)
    requires
        index < chars@.len(),
    ensures
        r == is_boundary_spec(chars@, index as int),
{
    is_terminator(chars[index]) && (index + 1 >= chars.len() || is_ws(chars[index + 1]))
}

fn skip_whitespace_back(chars: &[char], pos: usize) -> (r: usize)
    requires
        pos <= chars@.len(),
    ensures
        r == skip_back_spec(chars@, pos as int),
        r <= pos,
{
    let mut p = pos;
    while p > 0 && is_ws(chars[p - 1])
        invariant
            p <= pos <= chars@.len(),
            skip_back_spec(chars@, p as int) == skip_back_spec(chars@, pos as int),
        decreases p,
    {
        p = p - 1;
    }
    p
}

fn skip_whitespace_forward(chars: &[char], pos: usize) -> (r: usize)
    requires
        pos <= chars@.len(),
    ensures
        r == skip_forward_spec(chars@, pos as int),
        pos <= r <= chars@.len(),
{
    let mut p = pos;
    while p < chars.len() && is_ws(chars[p])
        invariant
            pos <= p <= chars@.len(),
            skip_forward_spec(chars@, p as int) == skip_forward_spec(chars@, pos as int),
        decreases chars@.len() - p,
    {
        p = p + 1;
    }
    p
}

fn forward_sentence_end(chars: &[char], from: usize) -> (r: usize)
    requires
        from <= chars@.len(),
    ensures
        r == sentence_end_spec(chars@, from as int),
        from <= r <= chars@.len(),
{
    let mut index = from;
    while index < chars.len()
        invariant
            from <= index <= chars@.len(),
            sentence_end_spec(chars@, index as int) == sentence_end_spec(chars@, from as int),
        decreases chars@.len() - index,
    {
        if is_sentence_boundary(chars, index) {
            return index + 1;
        }
        index = index + 1;
    }
    chars.len()
}

/// The sentence a local subject marker at `anchor` selects.
fn sentence_span(chars: &[char], anchor: usize, region: LocalRegion) -> (r: TextSpan)
    ensures
        (r.start as int, r.end as int) == sentence_span_spec(chars@, anchor as int, region),
        r.start <= r.end <= chars@.len(),
{
    let anchor = if anchor < chars.len() {
        anchor
    } else {
        chars.len()
    };
    if region == LocalRegion::After {
        let start = skip_whitespace_forward(chars, anchor);
        return TextSpan { start, end: forward_sentence_end(chars, start) };
    }
    let attach = skip_whitespace_back(chars, anchor);
    let ends_at_attach = attach > 0 && is_terminator(chars[attach - 1]);
    let scan_from = if ends_at_attach {
        attach - 1
    } else {
        attach
    };
    let mut start: usize = 0;
    let mut index = scan_from;
    while index > 0
        invariant_except_break
            index <= scan_from <= chars@.len(),
            start == 0,
            sentence_start_spec(chars@, index as int) == sentence_start_spec(chars@, scan_from as int),
        ensures
            start == sentence_start_spec(chars@, scan_from as int),
            start <= scan_from <= chars@.len(),
        decreases index,
    {
        if is_sentence_boundary(chars, index - 1) {
            start = index;
            break;
        }
        index = index - 1;
    }
    let first = skip_whitespace_forward(chars, start);
    let start = if first < attach {
        first
    } else {
        attach
    };
    let end = if region == LocalRegion::Before || ends_at_attach {
        attach
    } else {
        forward_sentence_end(chars, attach)
    };
    TextSpan { start, end }
}


/// The lines of `chars` from `i` on, as `[start, end)` ranges without
/// their line breaks; the current line began at `start`.
pub open spec fn lines_from(chars: Seq<char>, i: int, start: int) -> Seq<(int, int)>
    decreases chars.len() - i,
{
    if i >= chars.len() || i < 0 {
        seq![(start, chars.len() as int)]
    } else if chars[i] == '\n' {
        seq![(start, i)] + lines_from(chars, i + 1, i + 1)
    } else {
        lines_from(chars, i + 1, start)
    }
}

pub open spec fn line_ranges_spec(chars: Seq<char>) -> Seq<(int, int)> {
    lines_from(chars, 0, 0)
}

proof fn lemma_lines_from(chars: Seq<char>, i: int, start: int)
    requires
        0 <= start <= i <= chars.len(),
    ensures
        lines_from(chars, i, start).len() >= 1,
        forall|k: int|
            0 <= k < lines_from(chars, i, start).len() ==> start <= (#[trigger] lines_from(
                chars,
                i,
                start,
            )[k]).0 <= lines_from(chars, i, start)[k].1 <= chars.len(),
    decreases chars.len() - i,
{
    if i < chars.len() {
        if chars[i] == '\n' {
            lemma_lines_from(chars, i + 1, i + 1);
        } else {
            lemma_lines_from(chars, i + 1, start);
        }
    }
}

pub open spec fn pairs_view(v: Seq<(usize, usize)>) -> Seq<(int, int)> {
    Seq::new(v.len(), |k: int| (v[k].0 as int, v[k].1 as int))
}

/// Line ranges as `[start, end)` character offsets, without the newline.
fn line_ranges(chars: &[char]) -> (r: Vec<(usize, usize)>)
    ensures
        pairs_view(r@) == line_ranges_spec(chars@),
{
    let mut lines: Vec<(usize, usize)> = Vec::new();
    let mut start: usize = 0;
    let mut index: usize = 0;
    while index < chars.len()
        invariant
            start <= index <= chars@.len(),
            pairs_view(lines@) + lines_from(chars@, index as int, start as int) == line_ranges_spec(
                chars@,
            ),
        decreases chars@.len() - index,
    {
        if chars[index] == '\n' {
            let ghost before = pairs_view(lines@);
            lines.push((start, index));
            assert(pairs_view(lines@) =~= before + seq![(start as int, index as int)]);
            start = index + 1;
        }
        index = index + 1;
    }
    let ghost before = pairs_view(lines@);
    lines.push((start, chars.len()));
    assert(pairs_view(lines@) =~= before + seq![(start as int, chars@.len() as int)]);
    lines
}

/// Every character of `chars[r.0..r.1]` is whitespace.
pub open spec fn blank_spec(chars: Seq<char>, r: (int, int)) -> bool {
    forall|k: int| r.0 <= k < r.1 ==> is_ws_spec(#[trigger] chars[k])
}

/// The first line from `k` on that contains `pos`, else the last line.
pub open spec fn line_of(lines: Seq<(int, int)>, pos: int, k: int) -> int
    decreases lines.len() - k,
{
    if k >= lines.len() || k < 0 {
        lines.len() - 1
    } else if lines[k].0 <= pos <= lines[k].1 {
        k
    } else {
        line_of(lines, pos, k + 1)
    }
}

/// The first line of the run of non-blank lines that reaches down to `k`.
pub open spec fn run_first(chars: Seq<char>, lines: Seq<(int, int)>, k: int) -> int
    decreases k,
{
    if k > 0 && !blank_spec(chars, lines[k - 1]) {
        run_first(chars, lines, k - 1)
    } else {
        k
    }
}

/// The last line of the run of non-blank lines that starts at `k`.
pub open spec fn run_last(chars: Seq<char>, lines: Seq<(int, int)>, k: int) -> int
    decreases lines.len() - k,
{
    if 0 <= k && k + 1 < lines.len() && !blank_spec(chars, lines[k + 1]) {
        run_last(chars, lines, k + 1)
    } else {
        k
    }
}

/// The paragraph containing `pos`: the surrounding maximal run of
/// non-blank lines, with the end trimmed of trailing whitespace.
pub open spec fn paragraph_bounds_spec(chars: Seq<char>, pos: int) -> (int, int) {
    let lines = line_ranges_spec(chars);
    let pos = if pos < chars.len() {
        pos
    } else {
        chars.len() as int
    };
    let line = line_of(lines, pos, 0);
    if blank_spec(chars, lines[line]) {
        (lines[line].0, lines[line].0)
    } else {
        (lines[run_first(chars, lines, line)].0, skip_back_spec(
            chars,
            lines[run_last(chars, lines, line)].1,
        ))
    }
}

proof fn lemma_line_of(lines: Seq<(int, int)>, pos: int, k: int)
    requires
        lines.len() >= 1,
        0 <= k,
    ensures
        0 <= line_of(lines, pos, k) < lines.len(),
    decreases lines.len() - k,
{
    if k < lines.len() && !(lines[k].0 <= pos <= lines[k].1) {
        lemma_line_of(lines, pos, k + 1);
    }
}

proof fn lemma_run_first(chars: Seq<char>, lines: Seq<(int, int)>, k: int)
    requires
        0 <= k < lines.len(),
    ensures
        0 <= run_first(chars, lines, k) <= k,
    decreases k,
{
    if k > 0 && !blank_spec(chars, lines[k - 1]) {
        lemma_run_first(chars, lines, k - 1);
    }
}

proof fn lemma_run_last(chars: Seq<char>, lines: Seq<(int, int)>, k: int)
    requires
        0 <= k < lines.len(),
    ensures
        k <= run_last(chars, lines, k) < lines.len(),
    decreases lines.len() - k,
{
    if k + 1 < lines.len() && !blank_spec(chars, lines[k + 1]) {
        lemma_run_last(chars, lines, k + 1);
    }
}

fn is_blank(chars: &[char], range: (usize, usize)) -> (r: bool)
    requires
        range.0 <= range.1 <= chars@.len(),
    ensures
        r == blank_spec(chars@, (range.0 as int, range.1 as int)),
{
    let mut k = range.0;
    while k < range.1
        invariant
            range.0 <= k <= range.1 <= chars@.len(),
            forall|t: int| range.0 <= t < k ==> is_ws_spec(#[trigger] chars@[t]),
        decreases range.1 - k,
    {
        if !is_ws(chars[k]) {
            return false;
        }
        k = k + 1;
    }
    true
}

/// The paragraph containing `pos`.
fn paragraph_bounds(chars: &[char], pos: usize) -> (r: (usize, usize))
    ensures
        (r.0 as int, r.1 as int) == paragraph_bounds_spec(chars@, pos as int),
        r.0 <= chars@.len(),
        r.1 <= chars@.len(),
{
    let lines = line_ranges(chars);
    let ghost lv = line_ranges_spec(chars@);
    proof {
        lemma_lines_from(chars@, 0, 0);
    }
    assert(forall|k: int| 0 <= k < lines@.len() ==> (#[trigger] lines@[k]).0 as int == lv[k].0 && lines@[k].1 as int == lv[k].1) by {
        assert forall|k: int| 0 <= k < lines@.len() implies (#[trigger] lines@[k]).0 as int == lv[k].0 && lines@[k].1 as int == lv[k].1 by {
            assert(pairs_view(lines@)[k] == lv[k]);
        }
    }
    let pos = if pos < chars.len() {
        pos
    } else {
        chars.len()
    };
    let mut line: usize = 0;
    while line < lines.len() && !(lines[line].0 <= pos && pos <= lines[line].1)
        invariant
            line <= lines@.len(),
            lines@.len() == lv.len(),
            forall|k: int| 0 <= k < lines@.len() ==> (#[trigger] lines@[k]).0 as int == lv[k].0 && lines@[k].1 as int == lv[k].1,
            line_of(lv, pos as int, line as int) == line_of(lv, pos as int, 0),
        decreases lines@.len() - line,
    {
        line = line + 1;
    }
    if line == lines.len() {
        line = lines.len() - 1;
    }
    proof {
        lemma_line_of(lv, pos as int, 0);
    }
    assert(line == line_of(lv, pos as int, 0));
    if is_blank(chars, lines[line]) {
        return (lines[line].0, lines[line].0);
    }
    let mut first = line;
    while first > 0 && !is_blank(chars, lines[first - 1])
        invariant
            first <= line < lines@.len(),
            lines@.len() == lv.len(),
            forall|k: int| 0 <= k < lines@.len() ==> (#[trigger] lines@[k]).0 as int == lv[k].0 && lines@[k].1 as int == lv[k].1,
            forall|k: int| 0 <= k < lv.len() ==> 0 <= (#[trigger] lv[k]).0 <= lv[k].1 <= chars@.len(),
            run_first(chars@, lv, first as int) == run_first(chars@, lv, line as int),
        decreases first,
    {
        first = first - 1;
    }
    let mut last = line;
    while last < lines.len() - 1 && !is_blank(chars, lines[last + 1])
        invariant
            line <= last < lines@.len(),
            lines@.len() == lv.len(),
            forall|k: int| 0 <= k < lines@.len() ==> (#[trigger] lines@[k]).0 as int == lv[k].0 && lines@[k].1 as int == lv[k].1,
            forall|k: int| 0 <= k < lv.len() ==> 0 <= (#[trigger] lv[k]).0 <= lv[k].1 <= chars@.len(),
            run_last(chars@, lv, last as int) == run_last(chars@, lv, line as int),
        decreases lines@.len() - last,
    {
        last = last + 1;
    }
    (lines[first].0, skip_whitespace_back(chars, lines[last].1))
}

/// The paragraph a local subject marker at `anchor` selects.
pub open spec fn paragraph_span_spec(chars: Seq<char>, anchor: int, region: LocalRegion) -> (int, int) {
    let anchor = if anchor < chars.len() {
        anchor
    } else {
        chars.len() as int
    };
    if region == LocalRegion::After {
        let start = skip_forward_spec(chars, anchor);
        let end = paragraph_bounds_spec(chars, start).1;
        (start, if end < start {
            start
        } else {
            end
        })
    } else {
        let attach = skip_back_spec(chars, anchor);
        let bounds = paragraph_bounds_spec(chars, if attach > 0 {
            attach - 1
        } else {
            0
        });
        let start = if bounds.0 < attach {
            bounds.0
        } else {
            attach
        };
        let end = if region == LocalRegion::Before {
            attach
        } else if bounds.1 < attach {
            attach
        } else {
            bounds.1
        };
        (start, end)
    }
}

fn paragraph_span(chars: &[char], anchor: usize, region: LocalRegion) -> (r: TextSpan)
    ensures
        (r.start as int, r.end as int) == paragraph_span_spec(chars@, anchor as int, region),
        r.start <= r.end <= chars@.len(),
{
    let anchor = if anchor < chars.len() {
        anchor
    } else {
        chars.len()
    };
    if region == LocalRegion::After {
        let start = skip_whitespace_forward(chars, anchor);
        let (_, end) = paragraph_bounds(chars, start);
        return TextSpan {
            start,
            end: if end < start {
                start
            } else {
                end
            },
        };
    }
    let attach = skip_whitespace_back(chars, anchor);
    let (first, last) = paragraph_bounds(chars, if attach > 0 {
        attach - 1
    } else {
        0
    });
    let start = if first < attach {
        first
    } else {
        attach
    };
    let end = if region == LocalRegion::Before {
        attach
    } else if last < attach {
        attach
    } else {
        last
    };
    TextSpan { start, end }
}


/// The diagnostic a snippet with `n` matches earns under its cardinality.
pub open spec fn cardinality_error(cardinality: Cardinality, n: int) -> Option<DiagnosticCode> {
    match cardinality {
        Cardinality::ExactlyOne => if n == 0 {
            Some(DiagnosticCode::SnippetNotFound)
        } else if n > 1 {
            Some(DiagnosticCode::SnippetAmbiguous)
        } else {
            None
        },
        Cardinality::OneOrMore => if n == 0 {
            Some(DiagnosticCode::SnippetNotFound)
        } else {
            None
        },
        Cardinality::ZeroOrOne => if n > 1 {
            Some(DiagnosticCode::SnippetAmbiguous)
        } else {
            None
        },
        Cardinality::ZeroOrMore => None,
    }
}

/// How a snippet resolves: its matched spans, or the code of the error it
/// is reported with.
pub open spec fn snippet_outcome(snippet: SnippetView, text: Seq<char>, loose: bool) -> Result<
    Seq<(int, int)>,
    DiagnosticCode,
> {
    match snippet_spans(snippet.parts, text, loose) {
        Err(()) => Err(DiagnosticCode::InvalidSnippet),
        Ok(spans) => if !snippet.terminated {
            Err(DiagnosticCode::InvalidSnippet)
        } else {
            match cardinality_error(snippet.cardinality, spans.len() as int) {
                Some(code) => Err(code),
                None => Ok(spans),
            }
        },
    }
}

/// The errors resolution itself reports.
pub open spec fn resolution_error(d: Diagnostic) -> bool {
    &&& d.severity == Severity::Error
    &&& (d.code == DiagnosticCode::InvalidSnippet || d.code == DiagnosticCode::SnippetNotFound
        || d.code == DiagnosticCode::SnippetAmbiguous || d.code
        == DiagnosticCode::InvalidLocalSubjectMarker || d.code == DiagnosticCode::EmptyLocalSubject)
}

fn cardinality_error_of(cardinality: Cardinality, n: usize) -> (r: Option<DiagnosticCode>)
    ensures
        r == cardinality_error(cardinality, n as int),
{
    match cardinality {
        Cardinality::ExactlyOne => if n == 0 {
            Some(DiagnosticCode::SnippetNotFound)
        } else if n > 1 {
            Some(DiagnosticCode::SnippetAmbiguous)
        } else {
            None
        },
        Cardinality::OneOrMore => if n == 0 {
            Some(DiagnosticCode::SnippetNotFound)
        } else {
            None
        },
        Cardinality::ZeroOrOne => if n > 1 {
            Some(DiagnosticCode::SnippetAmbiguous)
        } else {
            None
        },
        Cardinality::ZeroOrMore => None,
    }
}

fn error_diagnostic(code: DiagnosticCode, message: String, span: &Option<SourceSpan>) -> (r: Diagnostic)
    ensures
        r.code == code,
        r.severity == Severity::Error,
        r.span == *span,
{
    Diagnostic { code, severity: Severity::Error, message, span: copy_span(span), related: Vec::new() }
}

fn message_with(prefix: &str, subject: &String) -> (r: String)
    ensures
        r@ == prefix@ + subject@,
{
    let mut m = prefix.to_owned();
    m.append(subject.as_str());
    m
}

/// The first anchor recorded for a block.
pub open spec fn anchor_index(anchors: Seq<IntralineaAnchor>, block: SourceSpan, k: int) -> Option<int>
    decreases anchors.len() - k,
{
    if k >= anchors.len() || k < 0 {
        None
    } else if anchors[k].block_span == block {
        Some(k)
    } else {
        anchor_index(anchors, block, k + 1)
    }
}

/// The visible-text span a local subject selects from its anchor.
pub open spec fn local_span_spec(chars: Seq<char>, local: crate::expand::LocalSubjectView, offset: int) -> (int, int) {
    if local.scope == LocalScope::Sentence {
        sentence_span_spec(chars, offset, local.region)
    } else {
        paragraph_span_spec(chars, offset, local.region)
    }
}

/// Resolves a local subject marker to the sentence or paragraph around its
/// block, or reports why it cannot.
fn resolve_local_subject(
    value: &mut Value,
    local: &LocalSubject,
    source_span: &Option<SourceSpan>,
    visible_text: &VisibleText,
    anchors: &[IntralineaAnchor],
    resolutions: &mut Vec<SnippetResolution>,
    diagnostics: &mut Vec<Diagnostic>,
)
    ensures
        old(diagnostics)@.len() <= final(diagnostics)@.len() <= old(diagnostics)@.len() + 1,
        final(diagnostics)@.subrange(0, old(diagnostics)@.len() as int) == old(diagnostics)@,
        forall|k: int| old(diagnostics)@.len() <= k < final(diagnostics)@.len() ==> resolution_error(#[trigger] final(diagnostics)@[k]) && final(diagnostics)@[k].span == *source_span,
        final(resolutions)@.subrange(0, old(resolutions)@.len() as int) == old(resolutions)@,
        old(resolutions)@.len() <= final(resolutions)@.len() <= old(resolutions)@.len() + 1,
        match anchor_index(anchors@, local.block_span, 0) {
            None => final(value)@ == ValueView::UnresolvedLocalSubject(local.marker@)
                && final(diagnostics)@.len() == old(diagnostics)@.len() + 1
                && final(diagnostics)@.last().code == DiagnosticCode::InvalidLocalSubjectMarker
                && final(resolutions)@ == old(resolutions)@,
            Some(a) => {
                let span = local_span_spec(visible_text.text@, local@, anchors@[a].visible_offset as int);
                if span.0 >= span.1 {
                    &&& final(value)@ == ValueView::UnresolvedLocalSubject(local.marker@)
                    &&& final(diagnostics)@.len() == old(diagnostics)@.len() + 1
                    &&& final(diagnostics)@.last().code == DiagnosticCode::EmptyLocalSubject
                    &&& final(resolutions)@ == old(resolutions)@
                } else {
                    &&& *final(value) == *old(value)
                    &&& final(diagnostics)@ == old(diagnostics)@
                    &&& final(resolutions)@.len() == old(resolutions)@.len() + 1
                    &&& final(resolutions)@.last().source@ == local.marker@
                    &&& final(resolutions)@.last().source_span == *source_span
                    &&& spans_view(final(resolutions)@.last().spans@) == seq![span]
                }
            },
        },
{
    let mut k: usize = 0;
    while k < anchors.len() && anchors[k].block_span != local.block_span
        invariant
            k <= anchors@.len(),
            anchor_index(anchors@, local.block_span, k as int) == anchor_index(anchors@, local.block_span, 0),
        decreases anchors@.len() - k,
    {
        k = k + 1;
    }
    if k == anchors.len() {
        let mut message = message_with("Local subject ", &local.marker);
        message.append(" cannot be anchored in the visible text");
        diagnostics.push(error_diagnostic(DiagnosticCode::InvalidLocalSubjectMarker, message, source_span));
        *value = Value::UnresolvedLocalSubject(local.marker.clone());
        assert(diagnostics@.subrange(0, old(diagnostics)@.len() as int) =~= old(diagnostics)@);
        assert(resolutions@.subrange(0, old(resolutions)@.len() as int) =~= old(resolutions)@);
        return;
    }
    let chars = chars_of(visible_text.text.as_str());
    let offset = anchors[k].visible_offset;
    let span = match local.scope {
        LocalScope::Sentence => sentence_span(chars.as_slice(), offset, local.region),
        LocalScope::Paragraph => paragraph_span(chars.as_slice(), offset, local.region),
    };
    if span.start >= span.end {
        let mut message = message_with("Local subject ", &local.marker);
        message.append(" selects no text");
        diagnostics.push(error_diagnostic(DiagnosticCode::EmptyLocalSubject, message, source_span));
        *value = Value::UnresolvedLocalSubject(local.marker.clone());
        assert(diagnostics@.subrange(0, old(diagnostics)@.len() as int) =~= old(diagnostics)@);
        assert(resolutions@.subrange(0, old(resolutions)@.len() as int) =~= old(resolutions)@);
        return;
    }
    let spans = vec![span];
    assert(spans_view(spans@) =~= seq![(span.start as int, span.end as int)]);
    resolutions.push(SnippetResolution { source: local.marker.clone(), source_span: copy_span(source_span), spans });
    assert(diagnostics@.subrange(0, old(diagnostics)@.len() as int) =~= old(diagnostics)@);
    assert(resolutions@.subrange(0, old(resolutions)@.len() as int) =~= old(resolutions)@);
}


/// Text spans with the given boundaries.
pub open spec fn spans_of(pairs: Seq<(int, int)>) -> Seq<TextSpan> {
    Seq::new(pairs.len(), |k: int| TextSpan { start: pairs[k].0 as usize, end: pairs[k].1 as usize })
}

proof fn lemma_spans_of_view(v: Seq<TextSpan>)
    ensures
        spans_of(spans_view(v)) == v,
{
    assert(spans_of(spans_view(v)) =~= v);
}

/// A value as resolution leaves it, with the spans it distributes over
/// when it is a text-span snippet that resolved.
pub open spec fn resolved_value(
    value: ValueView,
    text: Seq<char>,
    loose: bool,
    anchors: Seq<IntralineaAnchor>,
) -> (ValueView, Option<Seq<TextSpan>>) {
    match value {
        ValueView::Snippet(sv) => match snippet_outcome(sv, text, loose) {
            Err(_) => (ValueView::Unresolved(sv.source), None),
            Ok(_) => (value, None),
        },
        ValueView::TextSpanSnippet(sv) => match snippet_outcome(sv, text, loose) {
            Err(_) => (ValueView::Unresolved(sv.source), None),
            Ok(spans) => (value, Some(spans_of(spans))),
        },
        ValueView::LocalSubject(local) => match anchor_index(anchors, local.block_span, 0) {
            None => (ValueView::UnresolvedLocalSubject(local.marker), None),
            Some(a) => {
                let span = local_span_spec(text, local, anchors[a].visible_offset as int);
                if span.0 >= span.1 {
                    (ValueView::UnresolvedLocalSubject(local.marker), None)
                } else {
                    (value, None)
                }
            },
        },
        _ => (value, None),
    }
}

/// The values one side of a fact takes after resolution.
pub open spec fn side_alternatives(
    value: ValueView,
    text: Seq<char>,
    loose: bool,
    anchors: Seq<IntralineaAnchor>,
) -> Seq<ValueView> {
    let resolved = resolved_value(value, text, loose, anchors);
    alternatives_spec(resolved.0, resolved.1)
}

/// How many resolved facts the first `k` statements yield.
pub open spec fn fact_offset(
    statements: Seq<ExpandedStatement>,
    k: int,
    text: Seq<char>,
    loose: bool,
    anchors: Seq<IntralineaAnchor>,
) -> int
    decreases k,
{
    if k <= 0 {
        0
    } else {
        fact_offset(statements, k - 1, text, loose, anchors) + side_alternatives(
            statements[k - 1].subject@,
            text,
            loose,
            anchors,
        ).len() * side_alternatives(statements[k - 1].object@, text, loose, anchors).len()
    }
}

/// What resolving a value records: the source text and spans of its
/// resolution, when it resolves.
pub open spec fn value_resolution(
    value: ValueView,
    text: Seq<char>,
    loose: bool,
    anchors: Seq<IntralineaAnchor>,
) -> Option<(Seq<char>, Seq<(int, int)>)> {
    match value {
        ValueView::Snippet(sv) => match snippet_outcome(sv, text, loose) {
            Ok(spans) => Some((sv.source, spans)),
            Err(_) => None,
        },
        ValueView::TextSpanSnippet(sv) => match snippet_outcome(sv, text, loose) {
            Ok(spans) => Some((sv.source, spans)),
            Err(_) => None,
        },
        ValueView::LocalSubject(local) => match anchor_index(anchors, local.block_span, 0) {
            None => None,
            Some(a) => {
                let span = local_span_spec(text, local, anchors[a].visible_offset as int);
                if span.0 >= span.1 {
                    None
                } else {
                    Some((local.marker, seq![span]))
                }
            },
        },
        _ => None,
    }
}

/// The error that resolving a value reports, if any.
pub open spec fn value_error(
    value: ValueView,
    text: Seq<char>,
    loose: bool,
    anchors: Seq<IntralineaAnchor>,
) -> Option<DiagnosticCode> {
    match value {
        ValueView::Snippet(sv) => match snippet_outcome(sv, text, loose) {
            Ok(_) => None,
            Err(code) => Some(code),
        },
        ValueView::TextSpanSnippet(sv) => match snippet_outcome(sv, text, loose) {
            Ok(_) => None,
            Err(code) => Some(code),
        },
        ValueView::LocalSubject(local) => match anchor_index(anchors, local.block_span, 0) {
            None => Some(DiagnosticCode::InvalidLocalSubjectMarker),
            Some(a) => {
                let span = local_span_spec(text, local, anchors[a].visible_offset as int);
                if span.0 >= span.1 {
                    Some(DiagnosticCode::EmptyLocalSubject)
                } else {
                    None
                }
            },
        },
        _ => None,
    }
}

pub open spec fn resolution_count(value: ValueView, text: Seq<char>, loose: bool, anchors: Seq<IntralineaAnchor>) -> int {
    if value_resolution(value, text, loose, anchors) is Some {
        1
    } else {
        0
    }
}

pub open spec fn error_count(value: ValueView, text: Seq<char>, loose: bool, anchors: Seq<IntralineaAnchor>) -> int {
    if value_error(value, text, loose, anchors) is Some {
        1
    } else {
        0
    }
}

/// How many resolutions the first `k` statements record.
pub open spec fn resolution_offset(
    statements: Seq<ExpandedStatement>,
    k: int,
    text: Seq<char>,
    loose: bool,
    anchors: Seq<IntralineaAnchor>,
) -> int
    decreases k,
{
    if k <= 0 {
        0
    } else {
        resolution_offset(statements, k - 1, text, loose, anchors) + resolution_count(
            statements[k - 1].subject@,
            text,
            loose,
            anchors,
        ) + resolution_count(statements[k - 1].object@, text, loose, anchors)
    }
}

/// How many errors the first `k` statements report.
pub open spec fn error_offset(
    statements: Seq<ExpandedStatement>,
    k: int,
    text: Seq<char>,
    loose: bool,
    anchors: Seq<IntralineaAnchor>,
) -> int
    decreases k,
{
    if k <= 0 {
        0
    } else {
        error_offset(statements, k - 1, text, loose, anchors) + error_count(
            statements[k - 1].subject@,
            text,
            loose,
            anchors,
        ) + error_count(statements[k - 1].object@, text, loose, anchors)
    }
}

proof fn lemma_offsets_mono(
    statements: Seq<ExpandedStatement>,
    a: int,
    b: int,
    text: Seq<char>,
    loose: bool,
    anchors: Seq<IntralineaAnchor>,
)
    requires
        0 <= a <= b,
    ensures
        0 <= resolution_offset(statements, a, text, loose, anchors) <= resolution_offset(statements, b, text, loose, anchors),
        0 <= error_offset(statements, a, text, loose, anchors) <= error_offset(statements, b, text, loose, anchors),
    decreases b,
{
    if a < b {
        lemma_offsets_mono(statements, a, b - 1, text, loose, anchors);
    } else if b > 0 {
        lemma_offsets_mono(statements, 0, b - 1, text, loose, anchors);
    }
}

/// A resolution records the given source text and spans for a value at
/// `span`.
pub open spec fn records(resolution: SnippetResolution, expected: (Seq<char>, Seq<(int, int)>), span: Option<SourceSpan>) -> bool {
    &&& resolution.source@ == expected.0
    &&& resolution.source_span == span
    &&& spans_view(resolution.spans@) == expected.1
}

/// Resolves one value in place. Snippets are matched and checked against
/// their cardinality; a text-span snippet hands back its matched spans.
fn resolve_value(
    value: &mut Value,
    source_span: &Option<SourceSpan>,
    visible_text: &VisibleText,
    profile: Profile,
    anchors: &[IntralineaAnchor],
    resolutions: &mut Vec<SnippetResolution>,
    diagnostics: &mut Vec<Diagnostic>,
) -> (r: Option<Vec<TextSpan>>)
    ensures
        old(diagnostics)@.len() <= final(diagnostics)@.len() <= old(diagnostics)@.len() + 1,
        final(diagnostics)@.subrange(0, old(diagnostics)@.len() as int) == old(diagnostics)@,
        forall|k: int| old(diagnostics)@.len() <= k < final(diagnostics)@.len() ==> resolution_error(#[trigger] final(diagnostics)@[k]) && final(diagnostics)@[k].span == *source_span,
        final(resolutions)@.subrange(0, old(resolutions)@.len() as int) == old(resolutions)@,
        old(resolutions)@.len() <= final(resolutions)@.len() <= old(resolutions)@.len() + 1,
        final(value)@ == resolved_value(old(value)@, visible_text.text@, profile.is_loose_spec(), anchors@).0,
        match value_resolution(old(value)@, visible_text.text@, profile.is_loose_spec(), anchors@) {
            Some(expected) => final(resolutions)@.len() == old(resolutions)@.len() + 1 && records(
                final(resolutions)@.last(),
                expected,
                *source_span,
            ),
            None => final(resolutions)@ == old(resolutions)@,
        },
        match value_error(old(value)@, visible_text.text@, profile.is_loose_spec(), anchors@) {
            Some(code) => final(diagnostics)@.len() == old(diagnostics)@.len() + 1 && final(diagnostics)@.last().code
                == code,
            None => final(diagnostics)@ == old(diagnostics)@,
        },
        opt_spans_view(r) == resolved_value(old(value)@, visible_text.text@, profile.is_loose_spec(), anchors@).1,
        match old(value)@ {
            ValueView::Snippet(sv) => r is None && match snippet_outcome(sv, visible_text.text@, profile.is_loose_spec()) {
                Err(code) => final(value)@ == ValueView::Unresolved(sv.source)
                    && final(diagnostics)@.len() == old(diagnostics)@.len() + 1
                    && final(diagnostics)@.last().code == code
                    && final(resolutions)@ == old(resolutions)@,
                Ok(spans) => *final(value) == *old(value) && final(diagnostics)@ == old(diagnostics)@
                    && final(resolutions)@.len() == old(resolutions)@.len() + 1
                    && final(resolutions)@.last().source@ == sv.source
                    && final(resolutions)@.last().source_span == *source_span
                    && spans_view(final(resolutions)@.last().spans@) == spans,
            },
            ValueView::TextSpanSnippet(sv) => match snippet_outcome(sv, visible_text.text@, profile.is_loose_spec()) {
                Err(code) => r is None && final(value)@ == ValueView::Unresolved(sv.source)
                    && final(diagnostics)@.len() == old(diagnostics)@.len() + 1
                    && final(diagnostics)@.last().code == code
                    && final(resolutions)@ == old(resolutions)@,
                Ok(spans) => *final(value) == *old(value) && final(diagnostics)@ == old(diagnostics)@
                    && final(resolutions)@.len() == old(resolutions)@.len() + 1
                    && final(resolutions)@.last().source@ == sv.source
                    && final(resolutions)@.last().source_span == *source_span
                    && spans_view(final(resolutions)@.last().spans@) == spans
                    && (r matches Some(v) && spans_view(v@) == spans),
            },
            ValueView::LocalSubject(_) => r is None,
            _ => r is None && *final(value) == *old(value) && final(diagnostics)@ == old(diagnostics)@
                && final(resolutions)@ == old(resolutions)@,
        },
{
    if let Value::LocalSubject(local) = value {
        let local = local.duplicate();
        resolve_local_subject(value, &local, source_span, visible_text, anchors, resolutions, diagnostics);
        return None;
    }
    let text_span = matches!(value, Value::TextSpanSnippet(_));
    let snippet = match value {
        Value::Snippet(snippet) => snippet.duplicate(),
        Value::TextSpanSnippet(snippet) => snippet.duplicate(),
        _ => {
            assert(diagnostics@.subrange(0, diagnostics@.len() as int) =~= diagnostics@);
            assert(resolutions@.subrange(0, resolutions@.len() as int) =~= resolutions@);
            return None;
        },
    };
    let spans = match match_snippet(snippet.parts.as_slice(), visible_text, profile) {
        Ok(spans) => {
            if !snippet.terminated {
                let message = message_with("Invalid snippet syntax: ", &snippet.source);
                diagnostics.push(error_diagnostic(DiagnosticCode::InvalidSnippet, message, source_span));
                *value = Value::Unresolved(snippet.source);
                assert(diagnostics@.subrange(0, old(diagnostics)@.len() as int) =~= old(diagnostics)@);
                assert(resolutions@.subrange(0, old(resolutions)@.len() as int) =~= old(resolutions)@);
                return None;
            }
            spans
        },
        Err(error) => {
            let error = Diagnostic {
                code: error.code,
                severity: error.severity,
                message: error.message,
                span: copy_span(source_span),
                related: error.related,
            };
            diagnostics.push(error);
            *value = Value::Unresolved(snippet.source);
            assert(diagnostics@.subrange(0, old(diagnostics)@.len() as int) =~= old(diagnostics)@);
            assert(resolutions@.subrange(0, old(resolutions)@.len() as int) =~= old(resolutions)@);
            return None;
        },
    };
    if let Some(code) = cardinality_error_of(snippet.cardinality, spans.len()) {
        let message = if code == DiagnosticCode::SnippetNotFound {
            message_with("Snippet did not match: ", &snippet.source)
        } else {
            message_with("Snippet matched more than allowed: ", &snippet.source)
        };
        diagnostics.push(error_diagnostic(code, message, source_span));
        *value = Value::Unresolved(snippet.source);
        assert(diagnostics@.subrange(0, old(diagnostics)@.len() as int) =~= old(diagnostics)@);
        assert(resolutions@.subrange(0, old(resolutions)@.len() as int) =~= old(resolutions)@);
        return None;
    }
    let kept = copy_spans(&spans);
    resolutions.push(SnippetResolution { source: snippet.source, source_span: copy_span(source_span), spans });
    assert(diagnostics@.subrange(0, old(diagnostics)@.len() as int) =~= old(diagnostics)@);
    assert(resolutions@.subrange(0, old(resolutions)@.len() as int) =~= old(resolutions)@);
    if text_span {
        proof {
            lemma_spans_of_view(kept@);
        }
        Some(kept)
    } else {
        None
    }
}

fn copy_spans(spans: &Vec<TextSpan>) -> (r: Vec<TextSpan>)
    ensures
        r@ == spans@,
{
    let mut r: Vec<TextSpan> = Vec::new();
    let mut k: usize = 0;
    while k < spans.len()
        invariant
            k <= spans@.len(),
            r@ == spans@.subrange(0, k as int),
        decreases spans@.len() - k,
    {
        r.push(spans[k]);
        k = k + 1;
    }
    assert(spans@.subrange(0, spans@.len() as int) =~= spans@);
    r
}

/// The values a side of a fact takes: one resolved text span per matched
/// span for a text-span snippet, else the value itself.
pub open spec fn alternatives_spec(value: ValueView, spans: Option<Seq<TextSpan>>) -> Seq<ValueView> {
    match (value, spans) {
        (ValueView::TextSpanSnippet(snippet), Some(spans)) => Seq::new(
            spans.len(),
            |k: int| ValueView::ResolvedTextSpan(snippet, spans[k]),
        ),
        _ => seq![value],
    }
}

pub open spec fn opt_spans_view(spans: Option<Vec<TextSpan>>) -> Option<Seq<TextSpan>> {
    match spans {
        Some(v) => Some(v@),
        None => None,
    }
}

fn value_alternatives(value: &Value, spans: &Option<Vec<TextSpan>>) -> (r: Vec<Value>)
    ensures
        r@.len() == alternatives_spec(value@, opt_spans_view(*spans)).len(),
        forall|k: int| 0 <= k < r@.len() ==> (#[trigger] r@[k])@ == alternatives_spec(value@, opt_spans_view(*spans))[k],
{
    let mut r: Vec<Value> = Vec::new();
    match (value, spans) {
        (Value::TextSpanSnippet(snippet), Some(spans)) => {
            let mut k: usize = 0;
            while k < spans.len()
                invariant
                    k <= spans@.len(),
                    r@.len() == k,
                    forall|t: int| 0 <= t < k ==> (#[trigger] r@[t])@ == ValueView::ResolvedTextSpan(snippet@, spans@[t]),
                decreases spans@.len() - k,
            {
                r.push(Value::ResolvedTextSpan { snippet: snippet.duplicate(), span: spans[k] });
                k = k + 1;
            }
        },
        _ => {
            r.push(value.duplicate());
        },
    }
    r
}

/// The fact `statement` with `subject` and `object` in place of its own.
pub open spec fn replica_of(st: ExpandedStatement, replica: ExpandedStatement, subject: ValueView, object: ValueView) -> bool {
    &&& replica.subject@ == subject
    &&& replica.object@ == object
    &&& replica.subject_span == st.subject_span
    &&& replica.predicate@ == st.predicate@
    &&& replica.predicate_span == st.predicate_span
    &&& replica.object_span == st.object_span
    &&& replica.statement_span == st.statement_span
}

/// Text-span snippets distribute one fact per matched span; both sides
/// distributing yields the Cartesian product, subject-major.
/// Denotational values pass through as a single alternative.
fn distribute(
    statement: &ExpandedStatement,
    subject_spans: &Option<Vec<TextSpan>>,
    object_spans: &Option<Vec<TextSpan>>,
    statements: &mut Vec<ExpandedStatement>,
)
    ensures
        ({
            let subjects = alternatives_spec(statement.subject@, opt_spans_view(*subject_spans));
            let objects = alternatives_spec(statement.object@, opt_spans_view(*object_spans));
            &&& final(statements)@.len() == old(statements)@.len() + subjects.len() * objects.len()
            &&& final(statements)@.subrange(0, old(statements)@.len() as int) == old(statements)@
            &&& forall|i: int, j: int|
                0 <= i < subjects.len() && 0 <= j < objects.len() ==> replica_of(
                    *statement,
                    #[trigger] final(statements)@[old(statements)@.len() + i * objects.len() + j],
                    subjects[i],
                    objects[j],
                )
        }),
{
    let subjects = value_alternatives(&statement.subject, subject_spans);
    let objects = value_alternatives(&statement.object, object_spans);
    let ghost sv = alternatives_spec(statement.subject@, opt_spans_view(*subject_spans));
    let ghost ov = alternatives_spec(statement.object@, opt_spans_view(*object_spans));
    let ghost base = old(statements)@.len();
    let ghost m = ov.len();
    let mut i: usize = 0;
    while i < subjects.len()
        invariant
            i <= subjects@.len(),
            subjects@.len() == sv.len(),
            objects@.len() == ov.len(),
            m == ov.len(),
            forall|k: int| 0 <= k < subjects@.len() ==> (#[trigger] subjects@[k])@ == sv[k],
            forall|k: int| 0 <= k < objects@.len() ==> (#[trigger] objects@[k])@ == ov[k],
            statements@.len() == base + i * m,
            statements@.subrange(0, base as int) == old(statements)@,
            forall|a: int, b: int|
                0 <= a < i && 0 <= b < m ==> replica_of(
                    *statement,
                    #[trigger] statements@[base + a * m + b],
                    sv[a],
                    ov[b],
                ),
        decreases subjects@.len() - i,
    {
        let mut j: usize = 0;
        while j < objects.len()
            invariant
                i < subjects@.len(),
                j <= objects@.len(),
                subjects@.len() == sv.len(),
                objects@.len() == ov.len(),
                m == ov.len(),
                forall|k: int| 0 <= k < subjects@.len() ==> (#[trigger] subjects@[k])@ == sv[k],
                forall|k: int| 0 <= k < objects@.len() ==> (#[trigger] objects@[k])@ == ov[k],
                statements@.len() == base + i * m + j,
                statements@.subrange(0, base as int) == old(statements)@,
                forall|a: int, b: int|
                    0 <= a < i && 0 <= b < m ==> replica_of(
                        *statement,
                        #[trigger] statements@[base + a * m + b],
                        sv[a],
                        ov[b],
                    ),
                forall|b: int|
                    0 <= b < j ==> replica_of(
                        *statement,
                        #[trigger] statements@[base + i * m + b],
                        sv[i as int],
                        ov[b],
                    ),
            decreases objects@.len() - j,
        {
            let replica = ExpandedStatement {
                subject: subjects[i].duplicate(),
                subject_span: copy_span(&statement.subject_span),
                predicate: statement.predicate.duplicate(),
                predicate_span: copy_span(&statement.predicate_span),
                object: objects[j].duplicate(),
                object_span: copy_span(&statement.object_span),
                statement_span: statement.statement_span.duplicate(),
            };
            let ghost before = statements@;
            statements.push(replica);
            proof {
                assert(statements@.subrange(0, base as int) =~= before.subrange(0, base as int));
                assert forall|a: int, b: int| 0 <= a < i && 0 <= b < m implies replica_of(
                    *statement,
                    #[trigger] statements@[base + a * m + b],
                    sv[a],
                    ov[b],
                ) by {
                    assert(a * m + b < i * m) by (nonlinear_arith)
                        requires
                            0 <= a < i,
                            0 <= b < m,
                    ;
                    assert(statements@[base + a * m + b] == before[base + a * m + b]);
                }
                assert forall|b: int| 0 <= b < j + 1 implies replica_of(
                    *statement,
                    #[trigger] statements@[base + i * m + b],
                    sv[i as int],
                    ov[b],
                ) by {
                    if b < j {
                        assert(statements@[base + i * m + b] == before[base + i * m + b]);
                    }
                }
            }
            j = j + 1;
        }
        proof {
            assert((i + 1) * m == i * m + m) by (nonlinear_arith);
            assert forall|a: int, b: int| 0 <= a < i + 1 && 0 <= b < m implies replica_of(
                *statement,
                #[trigger] statements@[base + a * m + b],
                sv[a],
                ov[b],
            ) by {
                if a == i {
                } else {
                }
            }
        }
        i = i + 1;
    }
}

/// The profile resolution matches under: the one asked for, else the
/// visible text's own.
pub open spec fn resolve_profile(asked: Option<Profile>, own: Profile) -> Profile {
    match asked {
        Some(p) => p,
        None => own,
    }
}

proof fn lemma_fact_offset_mono(
    statements: Seq<ExpandedStatement>,
    a: int,
    b: int,
    text: Seq<char>,
    loose: bool,
    anchors: Seq<IntralineaAnchor>,
)
    requires
        0 <= a <= b,
    ensures
        fact_offset(statements, a, text, loose, anchors) <= fact_offset(statements, b, text, loose, anchors),
    decreases b - a,
{
    if a < b {
        lemma_fact_offset_mono(statements, a, b - 1, text, loose, anchors);
        let n = side_alternatives(statements[b - 1].subject@, text, loose, anchors).len();
        let m = side_alternatives(statements[b - 1].object@, text, loose, anchors).len();
        assert(n * m >= 0) by (nonlinear_arith)
            requires
                n >= 0,
                m >= 0,
        ;
    }
}

/// All facts of the first `k` statements stand where `fact_offset` puts
/// them.
pub open spec fn facts_placed(
    stmts: Seq<ExpandedStatement>,
    k: int,
    text: Seq<char>,
    loose: bool,
    anchors: Seq<IntralineaAnchor>,
    facts: Seq<ExpandedStatement>,
) -> bool {
    &&& facts.len() == fact_offset(stmts, k, text, loose, anchors)
    &&& forall|kk: int, i: int, j: int|
        0 <= kk < k && 0 <= i < side_alternatives(stmts[kk].subject@, text, loose, anchors).len() && 0 <= j
            < side_alternatives(stmts[kk].object@, text, loose, anchors).len() ==> replica_of(
            stmts[kk],
            #[trigger] facts[fact_offset(stmts, kk, text, loose, anchors) + i * side_alternatives(
                stmts[kk].object@,
                text,
                loose,
                anchors,
            ).len() + j],
            side_alternatives(stmts[kk].subject@, text, loose, anchors)[i],
            side_alternatives(stmts[kk].object@, text, loose, anchors)[j],
        )
}

/// The resolutions of the first `k` statements stand where
/// `resolution_offset` puts them.
pub open spec fn resolutions_placed(
    stmts: Seq<ExpandedStatement>,
    k: int,
    text: Seq<char>,
    loose: bool,
    anchors: Seq<IntralineaAnchor>,
    resolutions: Seq<SnippetResolution>,
) -> bool {
    &&& resolutions.len() == resolution_offset(stmts, k, text, loose, anchors)
    &&& forall|kk: int|
        0 <= kk < k ==> (value_resolution(stmts[kk].subject@, text, loose, anchors) matches Some(expected)
            ==> records(#[trigger] resolutions[resolution_offset(stmts, kk, text, loose, anchors)], expected, stmts[kk].subject_span))
    &&& forall|kk: int|
        0 <= kk < k ==> (value_resolution(stmts[kk].object@, text, loose, anchors) matches Some(expected)
            ==> records(
            #[trigger] resolutions[resolution_offset(stmts, kk, text, loose, anchors) + resolution_count(
                stmts[kk].subject@,
                text,
                loose,
                anchors,
            )],
            expected,
            stmts[kk].object_span,
        ))
}

/// The errors of the first `k` statements stand, after `base` earlier
/// diagnostics, where `error_offset` puts them.
pub open spec fn errors_placed(
    stmts: Seq<ExpandedStatement>,
    k: int,
    text: Seq<char>,
    loose: bool,
    anchors: Seq<IntralineaAnchor>,
    base: int,
    diagnostics: Seq<Diagnostic>,
) -> bool {
    &&& diagnostics.len() == base + error_offset(stmts, k, text, loose, anchors)
    &&& forall|kk: int|
        0 <= kk < k ==> (value_error(stmts[kk].subject@, text, loose, anchors) matches Some(code) ==> (
        #[trigger] diagnostics[base + error_offset(stmts, kk, text, loose, anchors)]).code == code
            && diagnostics[base + error_offset(stmts, kk, text, loose, anchors)].span == stmts[kk].subject_span)
    &&& forall|kk: int|
        0 <= kk < k ==> (value_error(stmts[kk].object@, text, loose, anchors) matches Some(code) ==> (
        #[trigger] diagnostics[base + error_offset(stmts, kk, text, loose, anchors) + error_count(
            stmts[kk].subject@,
            text,
            loose,
            anchors,
        )]).code == code && diagnostics[base + error_offset(stmts, kk, text, loose, anchors) + error_count(
            stmts[kk].subject@,
            text,
            loose,
            anchors,
        )].span == stmts[kk].object_span)
}

proof fn lemma_step_facts(
    stmts: Seq<ExpandedStatement>,
    k: int,
    text: Seq<char>,
    loose: bool,
    anchors: Seq<IntralineaAnchor>,
    before: Seq<ExpandedStatement>,
    after: Seq<ExpandedStatement>,
)
    requires
        0 <= k < stmts.len(),
        facts_placed(stmts, k, text, loose, anchors, before),
        ({
            let subjects = side_alternatives(stmts[k].subject@, text, loose, anchors);
            let objects = side_alternatives(stmts[k].object@, text, loose, anchors);
            &&& after.len() == before.len() + subjects.len() * objects.len()
            &&& after.subrange(0, before.len() as int) == before
            &&& forall|i: int, j: int|
                0 <= i < subjects.len() && 0 <= j < objects.len() ==> replica_of(
                    stmts[k],
                    #[trigger] after[before.len() + i * objects.len() + j],
                    subjects[i],
                    objects[j],
                )
        }),
    ensures
        facts_placed(stmts, k + 1, text, loose, anchors, after),
{
    assert forall|kk: int, i: int, j: int|
        0 <= kk < k + 1 && 0 <= i < side_alternatives(stmts[kk].subject@, text, loose, anchors).len() && 0 <= j
            < side_alternatives(stmts[kk].object@, text, loose, anchors).len() implies replica_of(
            stmts[kk],
            #[trigger] after[fact_offset(stmts, kk, text, loose, anchors) + i * side_alternatives(
                stmts[kk].object@,
                text,
                loose,
                anchors,
            ).len() + j],
            side_alternatives(stmts[kk].subject@, text, loose, anchors)[i],
            side_alternatives(stmts[kk].object@, text, loose, anchors)[j],
        ) by {
        if kk < k {
            let m = side_alternatives(stmts[kk].object@, text, loose, anchors).len();
            let n = side_alternatives(stmts[kk].subject@, text, loose, anchors).len();
            let idx = fact_offset(stmts, kk, text, loose, anchors) + i * m + j;
            lemma_fact_offset_mono(stmts, kk + 1, k, text, loose, anchors);
            lemma_fact_offset_mono(stmts, 0, kk, text, loose, anchors);
            assert(0 <= i * m + j < n * m) by (nonlinear_arith)
                requires
                    0 <= i < n,
                    0 <= j < m,
            ;
            assert(after[idx] == after.subrange(0, before.len() as int)[idx]);
        }
    }
}

proof fn lemma_step_resolutions(
    stmts: Seq<ExpandedStatement>,
    k: int,
    text: Seq<char>,
    loose: bool,
    anchors: Seq<IntralineaAnchor>,
    before: Seq<SnippetResolution>,
    after: Seq<SnippetResolution>,
)
    requires
        0 <= k < stmts.len(),
        resolutions_placed(stmts, k, text, loose, anchors, before),
        after.subrange(0, before.len() as int) == before,
        after.len() == before.len() + resolution_count(stmts[k].subject@, text, loose, anchors) + resolution_count(
            stmts[k].object@,
            text,
            loose,
            anchors,
        ),
        value_resolution(stmts[k].subject@, text, loose, anchors) matches Some(expected) ==> records(
            after[before.len() as int],
            expected,
            stmts[k].subject_span,
        ),
        value_resolution(stmts[k].object@, text, loose, anchors) matches Some(expected) ==> records(
            after[before.len() + resolution_count(stmts[k].subject@, text, loose, anchors)],
            expected,
            stmts[k].object_span,
        ),
    ensures
        resolutions_placed(stmts, k + 1, text, loose, anchors, after),
{
    assert forall|kk: int|
        0 <= kk < k + 1 implies (value_resolution(stmts[kk].subject@, text, loose, anchors) matches Some(expected)
            ==> records(#[trigger] after[resolution_offset(stmts, kk, text, loose, anchors)], expected, stmts[kk].subject_span)) by {
        if kk < k && value_resolution(stmts[kk].subject@, text, loose, anchors) is Some {
            lemma_offsets_mono(stmts, kk + 1, k, text, loose, anchors);
            lemma_offsets_mono(stmts, 0, kk, text, loose, anchors);
            let i = resolution_offset(stmts, kk, text, loose, anchors);
            assert(after[i] == after.subrange(0, before.len() as int)[i]);
        }
    }
    assert forall|kk: int|
        0 <= kk < k + 1 implies (value_resolution(stmts[kk].object@, text, loose, anchors) matches Some(expected)
            ==> records(
            #[trigger] after[resolution_offset(stmts, kk, text, loose, anchors) + resolution_count(
                stmts[kk].subject@,
                text,
                loose,
                anchors,
            )],
            expected,
            stmts[kk].object_span,
        )) by {
        if kk < k && value_resolution(stmts[kk].object@, text, loose, anchors) is Some {
            lemma_offsets_mono(stmts, kk + 1, k, text, loose, anchors);
            lemma_offsets_mono(stmts, 0, kk, text, loose, anchors);
            let i = resolution_offset(stmts, kk, text, loose, anchors) + resolution_count(stmts[kk].subject@, text, loose, anchors);
            assert(after[i] == after.subrange(0, before.len() as int)[i]);
        }
    }
}

proof fn lemma_step_errors(
    stmts: Seq<ExpandedStatement>,
    k: int,
    text: Seq<char>,
    loose: bool,
    anchors: Seq<IntralineaAnchor>,
    base: int,
    before: Seq<Diagnostic>,
    after: Seq<Diagnostic>,
)
    requires
        0 <= k < stmts.len(),
        0 <= base,
        errors_placed(stmts, k, text, loose, anchors, base, before),
        after.subrange(0, before.len() as int) == before,
        after.len() == before.len() + error_count(stmts[k].subject@, text, loose, anchors) + error_count(
            stmts[k].object@,
            text,
            loose,
            anchors,
        ),
        value_error(stmts[k].subject@, text, loose, anchors) matches Some(code) ==> after[before.len() as int].code
            == code && after[before.len() as int].span == stmts[k].subject_span,
        value_error(stmts[k].object@, text, loose, anchors) matches Some(code) ==> after[before.len() + error_count(
            stmts[k].subject@,
            text,
            loose,
            anchors,
        )].code == code && after[before.len() + error_count(stmts[k].subject@, text, loose, anchors)].span
            == stmts[k].object_span,
    ensures
        errors_placed(stmts, k + 1, text, loose, anchors, base, after),
{
    assert forall|kk: int|
        0 <= kk < k + 1 implies (value_error(stmts[kk].subject@, text, loose, anchors) matches Some(code) ==> (
        #[trigger] after[base + error_offset(stmts, kk, text, loose, anchors)]).code == code
            && after[base + error_offset(stmts, kk, text, loose, anchors)].span == stmts[kk].subject_span) by {
        if kk < k && value_error(stmts[kk].subject@, text, loose, anchors) is Some {
            lemma_offsets_mono(stmts, kk + 1, k, text, loose, anchors);
            lemma_offsets_mono(stmts, 0, kk, text, loose, anchors);
            let i = base + error_offset(stmts, kk, text, loose, anchors);
            assert(after[i] == after.subrange(0, before.len() as int)[i]);
        }
    }
    assert forall|kk: int|
        0 <= kk < k + 1 implies (value_error(stmts[kk].object@, text, loose, anchors) matches Some(code) ==> (
        #[trigger] after[base + error_offset(stmts, kk, text, loose, anchors) + error_count(
            stmts[kk].subject@,
            text,
            loose,
            anchors,
        )]).code == code && after[base + error_offset(stmts, kk, text, loose, anchors) + error_count(
            stmts[kk].subject@,
            text,
            loose,
            anchors,
        )].span == stmts[kk].object_span) by {
        if kk < k && value_error(stmts[kk].object@, text, loose, anchors) is Some {
            lemma_offsets_mono(stmts, kk + 1, k, text, loose, anchors);
            lemma_offsets_mono(stmts, 0, kk, text, loose, anchors);
            let i = base + error_offset(stmts, kk, text, loose, anchors) + error_count(stmts[kk].subject@, text, loose, anchors);
            assert(after[i] == after.subrange(0, before.len() as int)[i]);
        }
    }
}

/// Resolves the subject and object of one fact and appends what comes
/// of it: the facts it distributes into, the resolutions it records and
/// the errors it reports.
fn resolve_statement(
    st: &ExpandedStatement,
    visible_text: &VisibleText,
    profile: Profile,
    anchors: &[IntralineaAnchor],
    statements: &mut Vec<ExpandedStatement>,
    resolutions: &mut Vec<SnippetResolution>,
    diagnostics: &mut Vec<Diagnostic>,
)
    ensures
        ({
            let text = visible_text.text@;
            let loose = profile.is_loose_spec();
            let subjects = side_alternatives(st.subject@, text, loose, anchors@);
            let objects = side_alternatives(st.object@, text, loose, anchors@);
            let n = old(statements)@.len();
            &&& final(statements)@.len() == n + subjects.len() * objects.len()
            &&& final(statements)@.subrange(0, n as int) == old(statements)@
            &&& forall|i: int, j: int|
                0 <= i < subjects.len() && 0 <= j < objects.len() ==> replica_of(
                    *st,
                    #[trigger] final(statements)@[n + i * objects.len() + j],
                    subjects[i],
                    objects[j],
                )
        }),
        ({
            let text = visible_text.text@;
            let loose = profile.is_loose_spec();
            let n = old(resolutions)@.len();
            &&& final(resolutions)@.subrange(0, n as int) == old(resolutions)@
            &&& final(resolutions)@.len() == n + resolution_count(st.subject@, text, loose, anchors@)
                + resolution_count(st.object@, text, loose, anchors@)
            &&& (value_resolution(st.subject@, text, loose, anchors@) matches Some(expected) ==> records(
                final(resolutions)@[n as int],
                expected,
                st.subject_span,
            ))
            &&& (value_resolution(st.object@, text, loose, anchors@) matches Some(expected) ==> records(
                final(resolutions)@[n + resolution_count(st.subject@, text, loose, anchors@)],
                expected,
                st.object_span,
            ))
        }),
        ({
            let text = visible_text.text@;
            let loose = profile.is_loose_spec();
            let n = old(diagnostics)@.len();
            &&& final(diagnostics)@.subrange(0, n as int) == old(diagnostics)@
            &&& final(diagnostics)@.len() == n + error_count(st.subject@, text, loose, anchors@) + error_count(
                st.object@,
                text,
                loose,
                anchors@,
            )
            &&& forall|t: int| n <= t < final(diagnostics)@.len() ==> resolution_error(#[trigger] final(diagnostics)@[t])
            &&& (value_error(st.subject@, text, loose, anchors@) matches Some(code) ==> final(diagnostics)@[n as int].code
                == code && final(diagnostics)@[n as int].span == st.subject_span)
            &&& (value_error(st.object@, text, loose, anchors@) matches Some(code) ==> final(diagnostics)@[n
                + error_count(st.subject@, text, loose, anchors@)].code == code && final(diagnostics)@[n + error_count(
                st.subject@,
                text,
                loose,
                anchors@,
            )].span == st.object_span)
        }),
{
    let ghost r0 = resolutions@;
    let ghost d0 = diagnostics@;
    let mut statement = st.duplicate();
    let subject_span = copy_span(&statement.subject_span);
    let subject_spans = resolve_value(
        &mut statement.subject,
        &subject_span,
        visible_text,
        profile,
        anchors,
        resolutions,
        diagnostics,
    );
    let ghost d1 = diagnostics@;
    let ghost r1 = resolutions@;
    let object_span = copy_span(&statement.object_span);
    let object_spans = resolve_value(
        &mut statement.object,
        &object_span,
        visible_text,
        profile,
        anchors,
        resolutions,
        diagnostics,
    );
    proof {
        assert forall|t: int| d0.len() <= t < diagnostics@.len() implies resolution_error(#[trigger] diagnostics@[t]) by {
            if t < d1.len() {
                assert(diagnostics@[t] == diagnostics@.subrange(0, d1.len() as int)[t]);
            }
        }
        assert(diagnostics@.subrange(0, d0.len() as int) =~= d0) by {
            assert forall|t: int| 0 <= t < d0.len() implies diagnostics@[t] == d0[t] by {
                assert(diagnostics@[t] == diagnostics@.subrange(0, d1.len() as int)[t]);
                assert(d1[t] == d1.subrange(0, d0.len() as int)[t]);
            }
        }
        assert(resolutions@.subrange(0, r0.len() as int) =~= r0) by {
            assert forall|t: int| 0 <= t < r0.len() implies resolutions@[t] == r0[t] by {
                assert(resolutions@[t] == resolutions@.subrange(0, r1.len() as int)[t]);
                assert(r1[t] == r1.subrange(0, r0.len() as int)[t]);
            }
        }
        if value_resolution(st.subject@, visible_text.text@, profile.is_loose_spec(), anchors@) is Some {
            assert(resolutions@[r0.len() as int] == resolutions@.subrange(0, r1.len() as int)[r0.len() as int]);
        }
        if value_error(st.subject@, visible_text.text@, profile.is_loose_spec(), anchors@) is Some {
            assert(diagnostics@[d0.len() as int] == diagnostics@.subrange(0, d1.len() as int)[d0.len() as int]);
        }
    }
    distribute(&statement, &subject_spans, &object_spans, statements);
}

/// Resolves expanded facts against a target's visible text.
pub fn resolve(expanded: &ExpandResult, visible_text: &VisibleText, options: ResolveOptions) -> (r: ResolveResult)
    ensures
        ({
            let stmts = expanded.statements@;
            let text = visible_text.text@;
            let loose = resolve_profile(options.profile, visible_text.profile).is_loose_spec();
            let anchors = options.intralinea_anchors@;
            &&& facts_placed(stmts, stmts.len() as int, text, loose, anchors, r.statements@)
            &&& resolutions_placed(stmts, stmts.len() as int, text, loose, anchors, r.resolutions@)
            &&& errors_placed(
                stmts,
                stmts.len() as int,
                text,
                loose,
                anchors,
                expanded.diagnostics@.len() as int,
                r.diagnostics@,
            )
        }),
        r.diagnostics@.len() >= expanded.diagnostics@.len(),
        same_diagnostics(r.diagnostics@.subrange(0, expanded.diagnostics@.len() as int), expanded.diagnostics@),
        forall|k: int|
            expanded.diagnostics@.len() <= k < r.diagnostics@.len() ==> resolution_error(#[trigger] r.diagnostics@[k]),
        (forall|k: int| 0 <= k < expanded.diagnostics@.len() ==> !(#[trigger] expanded.diagnostics@[k]).code.is_fragile())
            ==> forall|k: int| 0 <= k < r.diagnostics@.len() ==> !(#[trigger] r.diagnostics@[k]).code.is_fragile(),
{
    let profile = match options.profile {
        Some(p) => p,
        None => visible_text.profile,
    };
    let mut statements: Vec<ExpandedStatement> = Vec::new();
    let mut resolutions: Vec<SnippetResolution> = Vec::new();
    let mut diagnostics = copy_diagnostics(expanded.diagnostics.as_slice());
    let ghost start = diagnostics@;
    assert(diagnostics@.subrange(0, start.len() as int) =~= start);
    let mut k: usize = 0;
    while k < expanded.statements.len()
        invariant
            k <= expanded.statements@.len(),
            start.len() == expanded.diagnostics@.len(),
            same_diagnostics(start, expanded.diagnostics@),
            diagnostics@.len() >= start.len(),
            diagnostics@.subrange(0, start.len() as int) == start,
            forall|t: int| start.len() <= t < diagnostics@.len() ==> resolution_error(#[trigger] diagnostics@[t]),
            profile == resolve_profile(options.profile, visible_text.profile),
            facts_placed(expanded.statements@, k as int, visible_text.text@, profile.is_loose_spec(), options.intralinea_anchors@, statements@),
            resolutions_placed(expanded.statements@, k as int, visible_text.text@, profile.is_loose_spec(), options.intralinea_anchors@, resolutions@),
            errors_placed(
                expanded.statements@,
                k as int,
                visible_text.text@,
                profile.is_loose_spec(),
                options.intralinea_anchors@,
                start.len() as int,
                diagnostics@,
            ),
        decreases expanded.statements@.len() - k,
    {
        let ghost before = statements@;
        let ghost r0 = resolutions@;
        let ghost d0 = diagnostics@;
        resolve_statement(
            &expanded.statements[k],
            visible_text,
            profile,
            options.intralinea_anchors.as_slice(),
            &mut statements,
            &mut resolutions,
            &mut diagnostics,
        );
        proof {
            let text = visible_text.text@;
            let loose = profile.is_loose_spec();
            let anchors = options.intralinea_anchors@;
            let stmts = expanded.statements@;
            assert forall|t: int| start.len() <= t < diagnostics@.len() implies resolution_error(#[trigger] diagnostics@[t]) by {
                if t < d0.len() {
                    assert(diagnostics@[t] == diagnostics@.subrange(0, d0.len() as int)[t]);
                }
            }
            assert(diagnostics@.subrange(0, start.len() as int) =~= start) by {
                assert forall|t: int| 0 <= t < start.len() implies diagnostics@[t] == start[t] by {
                    assert(diagnostics@[t] == diagnostics@.subrange(0, d0.len() as int)[t]);
                    assert(d0[t] == d0.subrange(0, start.len() as int)[t]);
                }
            }
            lemma_step_facts(stmts, k as int, text, loose, anchors, before, statements@);
            lemma_step_resolutions(stmts, k as int, text, loose, anchors, r0, resolutions@);
            lemma_step_errors(stmts, k as int, text, loose, anchors, start.len() as int, d0, diagnostics@);
        }
        k = k + 1;
    }
    proof {
        if forall|k: int| 0 <= k < expanded.diagnostics@.len() ==> !(#[trigger] expanded.diagnostics@[k]).code.is_fragile() {
            assert forall|k: int| 0 <= k < diagnostics@.len() implies !(#[trigger] diagnostics@[k]).code.is_fragile() by {
                if k < start.len() {
                    assert(diagnostics@[k] == diagnostics@.subrange(0, start.len() as int)[k]);
                    assert(start[k].same(&expanded.diagnostics@[k]));
                }
            }
        }
    }
    ResolveResult { statements, resolutions, diagnostics }
}


/// A sentence ends just past the first `.`, `?` or `!` at or after `from`
/// that whitespace or the end of the text follows, or at the end of the
/// text when there is none: a terminator followed by any other character
/// never ends a sentence.
pub proof fn lemma_sentence_end_is_first_boundary(chars: Seq<char>, from: int)
    requires
        0 <= from <= chars.len(),
    ensures
        ({
            let e = sentence_end_spec(chars, from);
            &&& from <= e <= chars.len()
            &&& e == chars.len() || (e >= 1 && is_terminator_spec(chars[e - 1]) && (e == chars.len()
                || is_ws_spec(chars[e])))
            &&& forall|k: int|
                from <= k < e - 1 && is_terminator_spec(#[trigger] chars[k]) ==> k + 1 < chars.len()
                    && !is_ws_spec(chars[k + 1])
        }),
    decreases chars.len() - from,
{
    if from < chars.len() && !is_boundary_spec(chars, from) {
        lemma_sentence_end_is_first_boundary(chars, from + 1);
    }
}

/// A sentence starts just past the last `.`, `?` or `!` before `index`
/// that whitespace or the end of the text follows, or at the start of the
/// text: a terminator followed by any other character never starts one.
pub proof fn lemma_sentence_start_is_last_boundary(chars: Seq<char>, index: int)
    requires
        0 <= index <= chars.len(),
    ensures
        ({
            let s = sentence_start_spec(chars, index);
            &&& 0 <= s <= index
            &&& s == 0 || (is_terminator_spec(chars[s - 1]) && (s == chars.len() || is_ws_spec(chars[s])))
            &&& forall|k: int|
                s <= k < index && is_terminator_spec(#[trigger] chars[k]) ==> k + 1 < chars.len()
                    && !is_ws_spec(chars[k + 1])
        }),
    decreases index,
{
    if index > 0 && !is_boundary_spec(chars, index - 1) {
        lemma_sentence_start_is_last_boundary(chars, index - 1);
    }
}


proof fn lemma_skip_forward_facts(chars: Seq<char>, p: int)
    requires
        0 <= p <= chars.len(),
    ensures
        p <= skip_forward_spec(chars, p) <= chars.len(),
        forall|k: int| p <= k < skip_forward_spec(chars, p) ==> is_ws_spec(#[trigger] chars[k]),
        skip_forward_spec(chars, p) < chars.len() ==> !is_ws_spec(chars[skip_forward_spec(chars, p)]),
    decreases chars.len() - p,
{
    if p < chars.len() && is_ws_spec(chars[p]) {
        lemma_skip_forward_facts(chars, p + 1);
    }
}

proof fn lemma_skip_back_bounds(chars: Seq<char>, p: int)
    requires
        0 <= p <= chars.len(),
    ensures
        0 <= skip_back_spec(chars, p) <= p,
    decreases p,
{
    if p > 0 && is_ws_spec(chars[p - 1]) {
        lemma_skip_back_bounds(chars, p - 1);
    }
}

/// A local subject that reaches back into its sentence (`<`, `<>` and the
/// like) never starts right after a `.`, `?` or `!` that a character other
/// than whitespace follows, such as the point inside `3.50`.
pub proof fn lemma_backward_sentence_never_starts_inside_a_word(chars: Seq<char>, anchor: int, region: LocalRegion)
    requires
        0 <= anchor,
        region != LocalRegion::After,
    ensures
        ({
            let s = sentence_span_spec(chars, anchor, region).0;
            0 < s < chars.len() && is_terminator_spec(chars[s - 1]) ==> is_ws_spec(chars[s])
        }),
{
    let a = if anchor < chars.len() {
        anchor
    } else {
        chars.len() as int
    };
    lemma_skip_back_bounds(chars, a);
    let attach = skip_back_spec(chars, a);
    let ends_at_attach = attach > 0 && is_terminator_spec(chars[attach - 1]);
    let scan_from = if ends_at_attach {
        attach - 1
    } else {
        attach
    };
    lemma_sentence_start_is_last_boundary(chars, scan_from);
    let s0 = sentence_start_spec(chars, scan_from);
    lemma_skip_forward_facts(chars, s0);
    let first = skip_forward_spec(chars, s0);
    if ends_at_attach {
        assert(!is_ws_spec(chars[attach - 1]));
        if first > attach - 1 {
            assert(is_ws_spec(chars[attach - 1]));
        }
    }
    if first > s0 {
        assert(is_ws_spec(chars[first - 1]));
    }
}

} // verus!
