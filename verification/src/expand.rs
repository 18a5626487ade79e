//! Expansion of parsed statements into subject–predicate–object facts:
//! abbreviated predicate lists and object lists become one fact each, and
//! decorations become `note` facts.
use vstd::prelude::*;
use crate::diagnostic::{copy_diagnostics, copy_span, same_diagnostics, Diagnostic, DiagnosticCode, Severity, SourceSpan};
use crate::parser::Parse;
use crate::matching::TextSpan;
use crate::number::{classify_number, literal_is_finite, number_shape};
use crate::snippet::{snippet_view, SnippetValue, SnippetView};
use crate::syntax::{SyntaxKind, TreeEvent};
use crate::text::{byte_offsets, chars_equal, chars_of, string_of, trim, trim_spec, utf8_len, utf8_prefix};
use crate::tree::{first_of_spec, indices_of, node_range_spec, node_span, parent_spec, selection, start_kind, SyntaxNode, SyntaxTree};

verus! {

#[derive(Debug, Clone, PartialEq)]
pub enum Value {
    Name(String),
    Predicate(String),
    String(String),
    /// A finite number, kept as its literal text (`-0.25`).
    Number(String),
    /// A number literal outside the finite range of a double.
    InvalidNumber(String),
    Boolean(bool),
    Uri(String),
    Snippet(SnippetValue),
    TextSpanSnippet(SnippetValue),
    /// A text-span snippet after resolution, pinned to one concrete
    /// matched span. Produced only by resolve, never by expand.
    ResolvedTextSpan { snippet: SnippetValue, span: TextSpan },
    LocalSubject(LocalSubject),
    WholeDocument,
    Unresolved(String),
    UnresolvedLocalSubject(String),
}

#[derive(Debug, Clone, Copy, PartialEq, Eq, Structural)]
pub enum LocalScope {
    Sentence,
    Paragraph,
}

#[derive(Debug, Clone, Copy, PartialEq, Eq, Structural)]
pub enum LocalRegion {
    Before,
    After,
    Whole,
}

/// An intralinea local subject marker (`<`, `>`, `<>`, `<<`, `>>`,
/// `<<>>`, optionally `~`-prefixed), anchored to its enclosing
/// `{{ ... }}` block for resolution against the stripped visible text.
#[derive(Debug, Clone, PartialEq)]
pub struct LocalSubject {
    pub marker: String,
    pub scope: LocalScope,
    pub region: LocalRegion,
    pub text_span: bool,
    pub block_span: SourceSpan,
}

/// A local subject with its marker seen as characters.
pub struct LocalSubjectView {
    pub marker: Seq<char>,
    pub scope: LocalScope,
    pub region: LocalRegion,
    pub text_span: bool,
    pub block_span: SourceSpan,
}

impl View for LocalSubject {
    type V = LocalSubjectView;

    open spec fn view(&self) -> LocalSubjectView {
        LocalSubjectView {
            marker: self.marker@,
            scope: self.scope,
            region: self.region,
            text_span: self.text_span,
            block_span: self.block_span,
        }
    }
}

/// A value with its strings seen as character sequences.
pub enum ValueView {
    Name(Seq<char>),
    Predicate(Seq<char>),
    String(Seq<char>),
    Number(Seq<char>),
    InvalidNumber(Seq<char>),
    Boolean(bool),
    Uri(Seq<char>),
    Snippet(SnippetView),
    TextSpanSnippet(SnippetView),
    ResolvedTextSpan(SnippetView, TextSpan),
    LocalSubject(LocalSubjectView),
    WholeDocument,
    Unresolved(Seq<char>),
    UnresolvedLocalSubject(Seq<char>),
}

impl View for Value {
    type V = ValueView;

    open spec fn view(&self) -> ValueView {
        match self {
            Value::Name(s) => ValueView::Name(s@),
            Value::Predicate(s) => ValueView::Predicate(s@),
            Value::String(s) => ValueView::String(s@),
            Value::Number(s) => ValueView::Number(s@),
            Value::InvalidNumber(s) => ValueView::InvalidNumber(s@),
            Value::Boolean(b) => ValueView::Boolean(*b),
            Value::Uri(s) => ValueView::Uri(s@),
            Value::Snippet(v) => ValueView::Snippet(v@),
            Value::TextSpanSnippet(v) => ValueView::TextSpanSnippet(v@),
            Value::ResolvedTextSpan { snippet, span } => ValueView::ResolvedTextSpan(snippet@, *span),
            Value::LocalSubject(l) => ValueView::LocalSubject(l@),
            Value::WholeDocument => ValueView::WholeDocument,
            Value::Unresolved(s) => ValueView::Unresolved(s@),
            Value::UnresolvedLocalSubject(s) => ValueView::UnresolvedLocalSubject(s@),
        }
    }
}

impl LocalSubject {
    pub fn duplicate(&self) -> (r: LocalSubject)
        ensures
            r@ == self@,
    {
        LocalSubject {
            marker: self.marker.clone(),
            scope: self.scope,
            region: self.region,
            text_span: self.text_span,
            block_span: self.block_span.duplicate(),
        }
    }
}

impl Value {
    pub fn duplicate(&self) -> (r: Value)
        ensures
            r@ == self@,
    {
        match self {
            Value::Name(s) => Value::Name(s.clone()),
            Value::Predicate(s) => Value::Predicate(s.clone()),
            Value::String(s) => Value::String(s.clone()),
            Value::Number(s) => Value::Number(s.clone()),
            Value::InvalidNumber(s) => Value::InvalidNumber(s.clone()),
            Value::Boolean(b) => Value::Boolean(*b),
            Value::Uri(s) => Value::Uri(s.clone()),
            Value::Snippet(v) => Value::Snippet(v.duplicate()),
            Value::TextSpanSnippet(v) => Value::TextSpanSnippet(v.duplicate()),
            Value::ResolvedTextSpan { snippet, span } => Value::ResolvedTextSpan {
                snippet: snippet.duplicate(),
                span: *span,
            },
            Value::LocalSubject(l) => Value::LocalSubject(l.duplicate()),
            Value::WholeDocument => Value::WholeDocument,
            Value::Unresolved(s) => Value::Unresolved(s.clone()),
            Value::UnresolvedLocalSubject(s) => Value::UnresolvedLocalSubject(s.clone()),
        }
    }
}

#[derive(Debug, Clone, PartialEq)]
pub struct ExpandedStatement {
    pub subject: Value,
    pub subject_span: Option<SourceSpan>,
    pub predicate: Value,
    pub predicate_span: Option<SourceSpan>,
    pub object: Value,
    pub object_span: Option<SourceSpan>,
    pub statement_span: SourceSpan,
}

impl ExpandedStatement {
    /// Whether two facts say the same thing at the same places.
    pub open spec fn same(&self, other: &ExpandedStatement) -> bool {
        &&& self.subject@ == other.subject@
        &&& self.subject_span == other.subject_span
        &&& self.predicate@ == other.predicate@
        &&& self.predicate_span == other.predicate_span
        &&& self.object@ == other.object@
        &&& self.object_span == other.object_span
        &&& self.statement_span == other.statement_span
    }

    pub fn duplicate(&self) -> (r: ExpandedStatement)
        ensures
            r.same(self),
    {
        ExpandedStatement {
            subject: self.subject.duplicate(),
            subject_span: copy_span(&self.subject_span),
            predicate: self.predicate.duplicate(),
            predicate_span: copy_span(&self.predicate_span),
            object: self.object.duplicate(),
            object_span: copy_span(&self.object_span),
            statement_span: self.statement_span.duplicate(),
        }
    }
}

#[derive(Debug, Clone, PartialEq)]
pub struct ExpandOptions {
    pub ambient_subject: Option<Value>,
}

impl Default for ExpandOptions {
    fn default() -> (r: ExpandOptions)
        ensures
            r.ambient_subject is None,
    {
        ExpandOptions { ambient_subject: None }
    }
}

#[derive(Debug, Clone, PartialEq)]
pub struct ExpandResult {
    pub statements: Vec<ExpandedStatement>,
    pub diagnostics: Vec<Diagnostic>,
}

/// The first character index from `i` on at which `s` has exactly `b`
/// UTF-8 bytes before it.
pub open spec fn byte_index_from(s: Seq<char>, b: int, i: int) -> Option<int>
    decreases s.len() + 1 - i,
{
    if i > s.len() || i < 0 {
        None
    } else if utf8_prefix(s, i) == b {
        Some(i)
    } else {
        byte_index_from(s, b, i + 1)
    }
}

/// `text` without `width` bytes at each end, when both cuts fall on
/// character boundaries and do not cross; otherwise `text` itself.
pub open spec fn unquote_spec(text: Seq<char>, width: int) -> Seq<char> {
    let total = utf8_len(text) as int;
    let end = if total >= width {
        total - width
    } else {
        0
    };
    if width <= end {
        match (byte_index_from(text, width, 0), byte_index_from(text, end, 0)) {
            (Some(i), Some(j)) => text.subrange(i, j),
            _ => text,
        }
    } else {
        text
    }
}

proof fn lemma_byte_index(s: Seq<char>, b: int, i: int)
    requires
        0 <= i,
    ensures
        byte_index_from(s, b, i) matches Some(k) ==> i <= k <= s.len() && utf8_prefix(s, k) == b
            && forall|t: int| i <= t < k ==> utf8_prefix(s, t) != b,
    decreases s.len() + 1 - i,
{
    if i <= s.len() && utf8_prefix(s, i) != b {
        lemma_byte_index(s, b, i + 1);
    }
}

proof fn lemma_byte_index_first(s: Seq<char>, b: int, i: int, k: int)
    requires
        0 <= i <= k <= s.len(),
        utf8_prefix(s, k) == b,
        forall|t: int| i <= t < k ==> utf8_prefix(s, t) != b,
    ensures
        byte_index_from(s, b, i) == Some(k),
    decreases k - i,
{
    if i < k {
        lemma_byte_index_first(s, b, i + 1, k);
    }
}

proof fn lemma_byte_index_none(s: Seq<char>, b: int, i: int)
    requires
        0 <= i,
        forall|t: int| i <= t <= s.len() ==> utf8_prefix(s, t) != b,
    ensures
        byte_index_from(s, b, i) is None,
    decreases s.len() + 1 - i,
{
    if i <= s.len() {
        lemma_byte_index_none(s, b, i + 1);
    }
}

/// Strips `width` quote bytes from each end of a string literal's text.
fn unquote(text: &[char], width: usize) -> (r: Vec<char>)
    requires
        utf8_len(text@) <= usize::MAX,
    ensures
        r@ == unquote_spec(text@, width as int),
{
    let offsets = byte_offsets(text);
    let total = offsets[text.len()];
    let end: usize = if total >= width {
        total - width
    } else {
        0
    };
    let mut copy: Vec<char> = Vec::new();
    let mut k: usize = 0;
    while k < text.len()
        invariant
            k <= text@.len(),
            copy@ == text@.subrange(0, k as int),
        decreases text@.len() - k,
    {
        copy.push(text[k]);
        k = k + 1;
    }
    assert(text@.subrange(0, text@.len() as int) =~= text@);
    if width > end {
        return copy;
    }
    let i = match find_offset(&offsets, width) {
        Some(i) => i,
        None => {
            proof {
                lemma_byte_index_none(text@, width as int, 0);
            }
            return copy;
        },
    };
    let j = match find_offset(&offsets, end) {
        Some(j) => j,
        None => {
            proof {
                lemma_byte_index_none(text@, end as int, 0);
            }
            return copy;
        },
    };
    proof {
        lemma_byte_index_first(text@, width as int, 0, i as int);
        lemma_byte_index_first(text@, end as int, 0, j as int);
    }
    proof {
        lemma_byte_index(text@, width as int, 0);
        lemma_byte_index(text@, end as int, 0);
        if j < i {
            crate::text::lemma_utf8_prefix_mono(text@, j as int, i as int);
        }
    }
    let mut r: Vec<char> = Vec::new();
    let mut t = i;
    while t < j
        invariant
            i <= t <= j <= text@.len(),
            r@ == text@.subrange(i as int, t as int),
        decreases j - t,
    {
        r.push(text[t]);
        t = t + 1;
    }
    r
}

/// The first index of `b` in a table of character offsets.
fn find_offset(offsets: &Vec<usize>, b: usize) -> (r: Option<usize>)
    ensures
        r matches Some(i) ==> i < offsets@.len() && offsets@[i as int] == b && forall|t: int|
            0 <= t < i ==> offsets@[t] != b,
        r is None ==> forall|t: int| 0 <= t < offsets@.len() ==> offsets@[t] != b,
{
    let mut k: usize = 0;
    while k < offsets.len()
        invariant
            k <= offsets@.len(),
            forall|t: int| 0 <= t < k ==> offsets@[t] != b,
        decreases offsets@.len() - k,
    {
        if offsets[k] == b {
            return Some(k);
        }
        k = k + 1;
    }
    None
}


/// The character an escape `\c` stands for, if `c` is a known escape.
pub open spec fn escape_char(c: char) -> Option<char> {
    if c == 'n' {
        Some('\n')
    } else if c == 't' {
        Some('\t')
    } else if c == 'r' {
        Some('\r')
    } else if c == '\\' {
        Some('\\')
    } else if c == '"' {
        Some('"')
    } else if c == '\'' {
        Some('\'')
    } else if c == '0' {
        Some('\0')
    } else {
        None
    }
}

/// Decodes backslash escapes; unknown escapes stay verbatim and a
/// trailing lone backslash stays.
pub open spec fn unescape_spec(s: Seq<char>) -> Seq<char>
    decreases s.len(),
{
    if s.len() == 0 {
        Seq::empty()
    } else if s[0] != '\\' {
        seq![s[0]] + unescape_spec(s.drop_first())
    } else if s.len() == 1 {
        seq!['\\']
    } else {
        match escape_char(s[1]) {
            Some(c) => seq![c] + unescape_spec(s.subrange(2, s.len() as int)),
            None => seq!['\\', s[1]] + unescape_spec(s.subrange(2, s.len() as int)),
        }
    }
}

fn escape_of(c: char) -> (r: Option<char>)
    ensures
        r == escape_char(c),
{
    if c == 'n' {
        Some('\n')
    } else if c == 't' {
        Some('\t')
    } else if c == 'r' {
        Some('\r')
    } else if c == '\\' {
        Some('\\')
    } else if c == '"' {
        Some('"')
    } else if c == '\'' {
        Some('\'')
    } else if c == '0' {
        Some('\0')
    } else {
        None
    }
}

/// Decodes the escapes of a `"..."` string body.
fn unescape(text: &[char]) -> (r: Vec<char>)
    ensures
        r@ == unescape_spec(text@),
{
    let mut out: Vec<char> = Vec::new();
    let mut i: usize = 0;
    let len = text.len();
    assert(text@.subrange(0, len as int) =~= text@);
    while i < len
        invariant
            len == text@.len(),
            i <= len,
            out@ + unescape_spec(text@.subrange(i as int, len as int)) == unescape_spec(text@),
        decreases len - i,
    {
        let ghost rest = text@.subrange(i as int, len as int);
        let ghost before = out@;
        let ch = text[i];
        if ch != '\\' {
            out.push(ch);
            assert(rest.drop_first() =~= text@.subrange(i + 1, len as int));
            assert(out@ + unescape_spec(text@.subrange(i + 1, len as int)) =~= before + (seq![ch]
                + unescape_spec(rest.drop_first())));
            i = i + 1;
        } else if i + 1 == len {
            out.push('\\');
            assert(text@.subrange(i + 1, len as int) =~= Seq::<char>::empty());
            assert(out@ + unescape_spec(text@.subrange(i + 1, len as int)) =~= before + seq!['\\']);
            i = i + 1;
        } else {
            let next = text[i + 1];
            assert(rest.subrange(2, rest.len() as int) =~= text@.subrange(i + 2, len as int));
            match escape_of(next) {
                Some(c) => {
                    out.push(c);
                    assert(out@ + unescape_spec(text@.subrange(i + 2, len as int)) =~= before + (
                    seq![c] + unescape_spec(rest.subrange(2, rest.len() as int))));
                },
                None => {
                    out.push('\\');
                    out.push(next);
                    assert(out@ + unescape_spec(text@.subrange(i + 2, len as int)) =~= before + (
                    seq!['\\', next] + unescape_spec(rest.subrange(2, rest.len() as int))));
                },
            }
            i = i + 2;
        }
    }
    assert(text@.subrange(len as int, len as int) =~= Seq::<char>::empty());
    assert(out@ + Seq::<char>::empty() =~= out@);
    out
}

/// A predicate's text: trimmed, and without one pair of surrounding
/// backticks.
pub open spec fn predicate_text_spec(text: Seq<char>) -> Seq<char> {
    let t = trim_spec(text);
    if t.len() >= 2 && t[0] == '`' && t.last() == '`' {
        t.subrange(1, t.len() - 1)
    } else {
        t
    }
}

fn predicate_text_of(text: &[char]) -> (r: Vec<char>)
    ensures
        r@ == predicate_text_spec(text@),
{
    let t = trim(text);
    if t.len() >= 2 && t[0] == '`' && t[t.len() - 1] == '`' {
        let mut r: Vec<char> = Vec::new();
        let mut k: usize = 1;
        while k < t.len() - 1
            invariant
                t@ == trim_spec(text@),
                t@.len() >= 2,
                1 <= k <= t@.len() - 1,
                r@ == t@.subrange(1, k as int),
            decreases t@.len() - k,
        {
            r.push(t[k]);
            k = k + 1;
        }
        r
    } else {
        t
    }
}


/// The lines of `s`, split at each `\n` (a final empty line when `s`
/// ends with one).
pub open spec fn split_lines(s: Seq<char>) -> Seq<Seq<char>>
    decreases s.len(),
{
    if s.len() == 0 {
        seq![Seq::empty()]
    } else {
        let prev = split_lines(s.drop_last());
        if s.last() == '\n' {
            prev.push(Seq::empty())
        } else {
            prev.update(prev.len() - 1, prev.last().push(s.last()))
        }
    }
}

proof fn lemma_split_lines_nonempty(s: Seq<char>)
    ensures
        split_lines(s).len() >= 1,
    decreases s.len(),
{
    if s.len() > 0 {
        lemma_split_lines_nonempty(s.drop_last());
    }
}

/// Number of leading spaces and tabs.
pub open spec fn indent_spec(line: Seq<char>) -> nat
    decreases line.len(),
{
    if line.len() > 0 && (line[0] == ' ' || line[0] == '\t') {
        1 + indent_spec(line.drop_first())
    } else {
        0
    }
}

proof fn lemma_indent_bound(line: Seq<char>)
    ensures
        indent_spec(line) <= line.len(),
    decreases line.len(),
{
    if line.len() > 0 && (line[0] == ' ' || line[0] == '\t') {
        lemma_indent_bound(line.drop_first());
    }
}

/// The smallest indentation among the first `n` lines that are not blank.
pub open spec fn min_indent(lines: Seq<Seq<char>>, n: int) -> Option<nat>
    decreases n,
{
    if n <= 0 {
        None
    } else {
        let rest = min_indent(lines, n - 1);
        let line = lines[n - 1];
        if trim_spec(line).len() == 0 {
            rest
        } else {
            match rest {
                None => Some(indent_spec(line)),
                Some(m) => Some(
                    if m <= indent_spec(line) {
                        m
                    } else {
                        indent_spec(line)
                    },
                ),
            }
        }
    }
}

/// A line without `common` columns of indentation (or all of its own, if
/// it has fewer).
pub open spec fn dedent_line(line: Seq<char>, common: nat) -> Seq<char> {
    let cut = if common <= indent_spec(line) {
        common
    } else {
        indent_spec(line)
    };
    line.subrange(cut as int, line.len() as int)
}

/// The first `n` lines joined with `\n`.
pub open spec fn join_lines(lines: Seq<Seq<char>>, n: int) -> Seq<char>
    decreases n,
{
    if n <= 0 {
        Seq::empty()
    } else if n == 1 {
        lines[0]
    } else {
        join_lines(lines, n - 1) + seq!['\n'] + lines[n - 1]
    }
}

/// A triple-quoted string body: when it starts with a line break, that
/// break is dropped and the lines lose their common indentation.
pub open spec fn dedent_spec(text: Seq<char>) -> Seq<char> {
    let body = if text.len() >= 1 && text[0] == '\n' {
        Some(text.subrange(1, text.len() as int))
    } else if text.len() >= 2 && text[0] == '\r' && text[1] == '\n' {
        Some(text.subrange(2, text.len() as int))
    } else {
        None
    };
    match body {
        None => text,
        Some(b) => {
            let lines = split_lines(b);
            let common = match min_indent(lines, lines.len() as int) {
                Some(m) => m,
                None => 0,
            };
            join_lines(Seq::new(lines.len(), |k: int| dedent_line(lines[k], common)), lines.len() as int)
        },
    }
}

pub open spec fn lines_view(lines: Seq<Vec<char>>) -> Seq<Seq<char>> {
    Seq::new(lines.len(), |k: int| lines[k]@)
}

fn indent_of(line: &Vec<char>) -> (r: usize)
    ensures
        r == indent_spec(line@),
{
    let mut k: usize = 0;
    assert(line@.subrange(0, line@.len() as int) =~= line@);
    while k < line.len() && (line[k] == ' ' || line[k] == '\t')
        invariant
            k <= line@.len(),
            k + indent_spec(line@.subrange(k as int, line@.len() as int)) == indent_spec(line@),
        decreases line@.len() - k,
    {
        assert(line@.subrange(k as int, line@.len() as int).drop_first() =~= line@.subrange(
            k + 1,
            line@.len() as int,
        ));
        k = k + 1;
    }
    k
}

/// Removes the common indentation of a triple-quoted string body.
fn dedent(text: &[char]) -> (r: Vec<char>)
    ensures
        r@ == dedent_spec(text@),
{
    let start: usize = if text.len() >= 1 && text[0] == '\n' {
        1
    } else if text.len() >= 2 && text[0] == '\r' && text[1] == '\n' {
        2
    } else {
        let mut copy: Vec<char> = Vec::new();
        let mut k: usize = 0;
        while k < text.len()
            invariant
                k <= text@.len(),
                copy@ == text@.subrange(0, k as int),
            decreases text@.len() - k,
        {
            copy.push(text[k]);
            k = k + 1;
        }
        assert(text@.subrange(0, text@.len() as int) =~= text@);
        return copy;
    };
    let ghost body = text@.subrange(start as int, text@.len() as int);
    let mut lines: Vec<Vec<char>> = Vec::new();
    let mut current: Vec<char> = Vec::new();
    let mut i = start;
    assert(body.subrange(0, 0) =~= Seq::<char>::empty());
    assert(lines_view(lines@).push(current@) =~= seq![Seq::<char>::empty()]);
    while i < text.len()
        invariant
            start <= i <= text@.len(),
            body == text@.subrange(start as int, text@.len() as int),
            lines_view(lines@).push(current@) == split_lines(body.subrange(0, i - start)),
        decreases text@.len() - i,
    {
        let ghost prefix = body.subrange(0, i - start);
        assert(body.subrange(0, i - start + 1).drop_last() =~= prefix);
        assert(body.subrange(0, i - start + 1).last() == text@[i as int]);
        let ghost before = lines_view(lines@);
        if text[i] == '\n' {
            let done = current;
            lines.push(done);
            current = Vec::new();
            assert(lines_view(lines@) =~= before.push(done@));
            assert(lines_view(lines@).push(current@) =~= before.push(done@).push(Seq::empty()));
        } else {
            let ghost cur = current@;
            current.push(text[i]);
            assert(lines_view(lines@).push(current@) =~= before.push(cur).update(
                before.len() as int,
                before.push(cur).last().push(text@[i as int]),
            ));
        }
        i = i + 1;
    }
    let ghost last = current@;
    let ghost before_last = lines_view(lines@);
    lines.push(current);
    assert(lines_view(lines@) =~= before_last.push(last));
    assert(body.subrange(0, text@.len() - start) =~= body);
    let ghost lv = lines_view(lines@);
    assert(lv == split_lines(body));
    let mut common: Option<usize> = None;
    let mut k: usize = 0;
    while k < lines.len()
        invariant
            k <= lines@.len(),
            lv == lines_view(lines@),
            match common {
                Some(m) => min_indent(lv, k as int) == Some(m as nat),
                None => min_indent(lv, k as int) is None,
            },
        decreases lines@.len() - k,
    {
        assert(lv[k as int] == lines@[k as int]@);
        let t = trim(lines[k].as_slice());
        if t.len() > 0 {
            let ind = indent_of(&lines[k]);
            common = match common {
                None => Some(ind),
                Some(m) => Some(
                    if m <= ind {
                        m
                    } else {
                        ind
                    },
                ),
            };
        }
        k = k + 1;
    }
    let common_indent: usize = match common {
        Some(m) => m,
        None => 0,
    };
    let ghost dl = Seq::new(lv.len(), |t: int| dedent_line(lv[t], common_indent as nat));
    let mut out: Vec<char> = Vec::new();
    let mut k: usize = 0;
    while k < lines.len()
        invariant
            k <= lines@.len(),
            lv == lines_view(lines@),
            dl == Seq::new(lv.len(), |t: int| dedent_line(lv[t], common_indent as nat)),
            out@ == join_lines(dl, k as int),
        decreases lines@.len() - k,
    {
        if k > 0 {
            out.push('\n');
        }
        let line = &lines[k];
        assert(lv[k as int] == line@);
        let ind = indent_of(line);
        proof {
            lemma_indent_bound(line@);
        }
        let cut = if common_indent <= ind {
            common_indent
        } else {
            ind
        };
        let ghost head = out@;
        let mut t = cut;
        while t < line.len()
            invariant
                cut <= t <= line@.len(),
                out@ == head + line@.subrange(cut as int, t as int),
            decreases line@.len() - t,
        {
            out.push(line[t]);
            t = t + 1;
        }
        assert(dl[k as int] == line@.subrange(cut as int, line@.len() as int));
        assert(out@ =~= join_lines(dl, k + 1));
        k = k + 1;
    }
    proof {
        lemma_split_lines_nonempty(body);
    }
    out
}


/// The kinds of node that carry a value.
pub open spec fn value_kinds() -> Seq<SyntaxKind> {
    seq![
        SyntaxKind::Snippet,
        SyntaxKind::RangeSnippet,
        SyntaxKind::Uri,
        SyntaxKind::String,
        SyntaxKind::TripleString,
        SyntaxKind::Number,
        SyntaxKind::Boolean,
        SyntaxKind::Identifier,
    ]
}

/// The source text of the node opened at event `j`.
pub open spec fn node_text_spec(tree: &SyntaxTree, j: int) -> Seq<char> {
    tree.source@.subrange(node_range_spec(tree, j).0, node_range_spec(tree, j).1)
}

/// `text` without one pair of surrounding angle brackets.
pub open spec fn strip_angles(text: Seq<char>) -> Seq<char> {
    if text.len() >= 2 && text[0] == '<' && text.last() == '>' {
        text.subrange(1, text.len() - 1)
    } else {
        text
    }
}

/// What a non-snippet value node of `kind` with source `text` denotes.
pub open spec fn scalar_value(kind: SyntaxKind, text: Seq<char>) -> Option<ValueView> {
    if kind == SyntaxKind::Uri {
        Some(ValueView::Uri(strip_angles(text)))
    } else if kind == SyntaxKind::String {
        Some(ValueView::String(unescape_spec(unquote_spec(text, 1))))
    } else if kind == SyntaxKind::TripleString {
        Some(ValueView::String(dedent_spec(unquote_spec(text, 3))))
    } else if kind == SyntaxKind::Number {
        if number_shape(text) {
            Some(
                if literal_is_finite(text) {
                    ValueView::Number(text)
                } else {
                    ValueView::InvalidNumber(text)
                },
            )
        } else {
            None
        }
    } else if kind == SyntaxKind::Boolean {
        if text == seq!['t', 'r', 'u', 'e'] {
            Some(ValueView::Boolean(true))
        } else if text == seq!['f', 'a', 'l', 's', 'e'] {
            Some(ValueView::Boolean(false))
        } else {
            None
        }
    } else if kind == SyntaxKind::Identifier {
        Some(ValueView::Name(text))
    } else {
        None
    }
}

/// The snippet value of the node opened at `j`, written as `syntax`
/// (already trimmed): a leading `~` makes it a text-span snippet and is
/// not part of its source.
pub open spec fn snippet_denoted(tree: &SyntaxTree, j: int, syntax: Seq<char>) -> ValueView {
    if syntax.len() > 0 && syntax[0] == '~' {
        ValueView::TextSpanSnippet(snippet_view(tree, j, syntax.drop_first()))
    } else {
        ValueView::Snippet(snippet_view(tree, j, syntax))
    }
}

/// The value that node `i` denotes: that of its first value node (itself
/// included).
pub open spec fn node_value(tree: &SyntaxTree, i: int) -> Option<ValueView> {
    match first_of_spec(tree.events@, i, value_kinds(), true) {
        None => None,
        Some(j) => {
            let kind = start_kind(tree.events@[j]);
            if kind == SyntaxKind::Snippet || kind == SyntaxKind::RangeSnippet {
                Some(snippet_denoted(tree, j, trim_spec(node_text_spec(tree, i))))
            } else {
                scalar_value(kind, node_text_spec(tree, j))
            }
        },
    }
}

pub open spec fn option_view(v: Option<Value>) -> Option<ValueView> {
    match v {
        Some(x) => Some(x@),
        None => None,
    }
}


fn copy_chars(a: &[char], from: usize, to: usize) -> (r: Vec<char>)
    requires
        from <= to <= a@.len(),
    ensures
        r@ == a@.subrange(from as int, to as int),
{
    let mut r: Vec<char> = Vec::new();
    let mut k = from;
    while k < to
        invariant
            from <= k <= to <= a@.len(),
            r@ == a@.subrange(from as int, k as int),
        decreases to - k,
    {
        r.push(a[k]);
        k = k + 1;
    }
    r
}

/// The value a node denotes, if any.
fn value_from_node(node: &SyntaxNode) -> (r: Option<Value>)
    requires
        node.valid(),
    ensures
        option_view(r) == node_value(node.tree, node.index as int),
{
    let kinds = [
        SyntaxKind::Snippet,
        SyntaxKind::RangeSnippet,
        SyntaxKind::Uri,
        SyntaxKind::String,
        SyntaxKind::TripleString,
        SyntaxKind::Number,
        SyntaxKind::Boolean,
        SyntaxKind::Identifier,
    ];
    assert(kinds@ =~= value_kinds());
    let value_node = match node.first_of(&kinds, true) {
        Some(n) => n,
        None => {
            return None;
        },
    };
    let kind = value_node.kind();
    let text_string = value_node.text();
    let text = chars_of(text_string.as_str());
    if kind == SyntaxKind::Snippet || kind == SyntaxKind::RangeSnippet {
        let outer = node.text();
        let syntax = trim(chars_of(outer.as_str()).as_slice());
        if syntax.len() > 0 && syntax[0] == '~' {
            let source = copy_chars(syntax.as_slice(), 1, syntax.len());
            assert(source@ =~= syntax@.drop_first());
            let snippet = SnippetValue::from_node(&value_node, string_of(source.as_slice()));
            return Some(Value::TextSpanSnippet(snippet));
        } else {
            let snippet = SnippetValue::from_node(&value_node, string_of(syntax.as_slice()));
            return Some(Value::Snippet(snippet));
        }
    }
    if kind == SyntaxKind::Uri {
        if text.len() >= 2 && text[0] == '<' && text[text.len() - 1] == '>' {
            let inner = copy_chars(text.as_slice(), 1, text.len() - 1);
            return Some(Value::Uri(string_of(inner.as_slice())));
        }
        return Some(Value::Uri(text_string));
    }
    if kind == SyntaxKind::String {
        let body = unquote(text.as_slice(), 1);
        return Some(Value::String(string_of(unescape(body.as_slice()).as_slice())));
    }
    if kind == SyntaxKind::TripleString {
        let body = unquote(text.as_slice(), 3);
        return Some(Value::String(string_of(dedent(body.as_slice()).as_slice())));
    }
    if kind == SyntaxKind::Number {
        return match classify_number(text.as_slice()) {
            Some(true) => Some(Value::Number(text_string)),
            Some(false) => Some(Value::InvalidNumber(text_string)),
            None => None,
        };
    }
    if kind == SyntaxKind::Boolean {
        let t = ['t', 'r', 'u', 'e'];
        let f = ['f', 'a', 'l', 's', 'e'];
        assert(t@ =~= seq!['t', 'r', 'u', 'e']);
        assert(f@ =~= seq!['f', 'a', 'l', 's', 'e']);
        if chars_equal(text.as_slice(), &t) {
            return Some(Value::Boolean(true));
        }
        if chars_equal(text.as_slice(), &f) {
            return Some(Value::Boolean(false));
        }
        return None;
    }
    Some(Value::Name(text_string))
}


/// The scope, region and text-span flag a local subject marker stands for.
pub open spec fn marker_meaning(marker: Seq<char>) -> Option<(LocalScope, LocalRegion, bool)> {
    let text_span = marker.len() > 0 && marker[0] == '~';
    let body = if text_span {
        marker.drop_first()
    } else {
        marker
    };
    if body == seq!['<'] {
        Some((LocalScope::Sentence, LocalRegion::Before, text_span))
    } else if body == seq!['>'] {
        Some((LocalScope::Sentence, LocalRegion::After, text_span))
    } else if body == seq!['<', '>'] {
        Some((LocalScope::Sentence, LocalRegion::Whole, text_span))
    } else if body == seq!['<', '<'] {
        Some((LocalScope::Paragraph, LocalRegion::Before, text_span))
    } else if body == seq!['>', '>'] {
        Some((LocalScope::Paragraph, LocalRegion::After, text_span))
    } else if body == seq!['<', '<', '>', '>'] {
        Some((LocalScope::Paragraph, LocalRegion::Whole, text_span))
    } else {
        None
    }
}

fn marker_meaning_of(marker: &[char]) -> (r: Option<(LocalScope, LocalRegion, bool)>)
    ensures
        r == marker_meaning(marker@),
{
    let text_span = marker.len() > 0 && marker[0] == '~';
    let body = if text_span {
        copy_chars(marker, 1, marker.len())
    } else {
        copy_chars(marker, 0, marker.len())
    };
    assert(text_span ==> body@ =~= marker@.drop_first());
    assert(!text_span ==> body@ =~= marker@);
    let a = ['<'];
    let b = ['>'];
    let c = ['<', '>'];
    let d = ['<', '<'];
    let e = ['>', '>'];
    let f = ['<', '<', '>', '>'];
    assert(a@ =~= seq!['<']);
    assert(b@ =~= seq!['>']);
    assert(c@ =~= seq!['<', '>']);
    assert(d@ =~= seq!['<', '<']);
    assert(e@ =~= seq!['>', '>']);
    assert(f@ =~= seq!['<', '<', '>', '>']);
    if chars_equal(body.as_slice(), &a) {
        Some((LocalScope::Sentence, LocalRegion::Before, text_span))
    } else if chars_equal(body.as_slice(), &b) {
        Some((LocalScope::Sentence, LocalRegion::After, text_span))
    } else if chars_equal(body.as_slice(), &c) {
        Some((LocalScope::Sentence, LocalRegion::Whole, text_span))
    } else if chars_equal(body.as_slice(), &d) {
        Some((LocalScope::Paragraph, LocalRegion::Before, text_span))
    } else if chars_equal(body.as_slice(), &e) {
        Some((LocalScope::Paragraph, LocalRegion::After, text_span))
    } else if chars_equal(body.as_slice(), &f) {
        Some((LocalScope::Paragraph, LocalRegion::Whole, text_span))
    } else {
        None
    }
}

/// A span inside a source of `total` bytes.
pub open spec fn span_in(span: SourceSpan, total: int) -> bool {
    span.start <= span.end <= total
}

pub open spec fn opt_span_in(span: Option<SourceSpan>, total: int) -> bool {
    span matches Some(s) ==> span_in(s, total)
}

/// A fact with its values and spans seen as plain values.
pub struct FactView {
    pub subject: ValueView,
    pub subject_span: Option<SourceSpan>,
    pub predicate: ValueView,
    pub predicate_span: Option<SourceSpan>,
    pub object: ValueView,
    pub object_span: Option<SourceSpan>,
    pub statement_span: SourceSpan,
}

impl View for ExpandedStatement {
    type V = FactView;

    open spec fn view(&self) -> FactView {
        FactView {
            subject: self.subject@,
            subject_span: self.subject_span,
            predicate: self.predicate@,
            predicate_span: self.predicate_span,
            object: self.object@,
            object_span: self.object_span,
            statement_span: self.statement_span,
        }
    }
}

pub open spec fn facts_view(facts: Seq<ExpandedStatement>) -> Seq<FactView> {
    facts.map_values(|f: ExpandedStatement| f@)
}

/// The nearest intralinea block that encloses the node opened at `i`.
pub open spec fn enclosing_block_spec(events: Seq<TreeEvent>, i: int) -> Option<int>
    decreases i,
{
    match parent_spec(events, i) {
        None => None,
        Some(p) => if 0 <= p < i && p < events.len() {
            if start_kind(events[p]) == SyntaxKind::IntralineaBlock {
                Some(p)
            } else {
                enclosing_block_spec(events, p)
            }
        } else {
            None
        },
    }
}

/// The local subject that a marker inside statement `s` stands for, with
/// the marker's span: the marker must have a meaning and an enclosing
/// intralinea block.
#[verifier::opaque]
pub open spec fn local_subject_spec(tree: &SyntaxTree, s: int) -> Option<(ValueView, SourceSpan)> {
    match first_of_spec(tree.events@, s, seq![SyntaxKind::LocalSubjectMarker], false) {
        None => None,
        Some(j) => match marker_meaning(node_text_spec(tree, j)) {
            None => None,
            Some((scope, region, text_span)) => match enclosing_block_spec(tree.events@, j) {
                None => None,
                Some(b) => Some(
                    (
                        ValueView::LocalSubject(
                            LocalSubjectView {
                                marker: node_text_spec(tree, j),
                                scope,
                                region,
                                text_span,
                                block_span: node_span(tree, b),
                            },
                        ),
                        node_span(tree, j),
                    ),
                ),
            },
        },
    }
}

/// The subject of statement `s` and its span: the value of its explicit
/// subject, else its local subject, else the ambient subject.
#[verifier::opaque]
pub open spec fn subject_of(tree: &SyntaxTree, s: int, ambient: Option<ValueView>) -> (
    Option<ValueView>,
    Option<SourceSpan>,
) {
    let explicit = selection(tree.events@, s, seq![SyntaxKind::Subject], false);
    let span = if explicit.len() > 0 {
        Some(node_span(tree, explicit[0] as int))
    } else {
        None
    };
    let value = if explicit.len() > 0 {
        node_value(tree, explicit[0] as int)
    } else {
        None
    };
    match value {
        Some(v) => (Some(v), span),
        None => match local_subject_spec(tree, s) {
            Some((v, marker_span)) => (Some(v), Some(marker_span)),
            None => (ambient, span),
        },
    }
}

/// The `note` fact that decoration `d` adds about `subject`, when it
/// holds a quoted string.
#[verifier::opaque]
pub open spec fn decoration_facts(tree: &SyntaxTree, d: int, subject: ValueView, subject_span: Option<SourceSpan>) -> Seq<
    FactView,
> {
    let strings = selection(tree.events@, d, seq![SyntaxKind::String, SyntaxKind::TripleString], false);
    if strings.len() > 0 {
        match node_value(tree, strings[0] as int) {
            Some(v) => seq![
                FactView {
                    subject,
                    subject_span,
                    predicate: note_predicate(),
                    predicate_span: None,
                    object: v,
                    object_span: Some(node_span(tree, strings[0] as int)),
                    statement_span: node_span(tree, d),
                },
            ],
            None => Seq::empty(),
        }
    } else {
        Seq::empty()
    }
}

/// The facts that the decorations `ds[k..]` add about `subject`.
#[verifier::opaque]
pub open spec fn decorations_facts(
    tree: &SyntaxTree,
    ds: Seq<usize>,
    k: int,
    subject: ValueView,
    subject_span: Option<SourceSpan>,
) -> Seq<FactView>
    decreases ds.len() - k,
{
    if k < 0 || k >= ds.len() {
        Seq::empty()
    } else {
        decoration_facts(tree, ds[k] as int, subject, subject_span) + decorations_facts(
            tree,
            ds,
            k + 1,
            subject,
            subject_span,
        )
    }
}

/// What a fact of one predicate shares: its subject, predicate and
/// statement.
pub struct FactContext {
    pub subject: ValueView,
    pub subject_span: Option<SourceSpan>,
    pub predicate: ValueView,
    pub predicate_span: Option<SourceSpan>,
    pub statement_span: SourceSpan,
}

/// The facts of the objects and decorations `items[k..]` of an object
/// list: one per object with a value, followed by the `note` facts of
/// the decorations after it; `current` is the last object seen, with its
/// span.
#[verifier::opaque]
pub open spec fn list_facts(
    tree: &SyntaxTree,
    items: Seq<usize>,
    k: int,
    current: Option<(ValueView, SourceSpan)>,
    context: FactContext,
) -> Seq<FactView>
    decreases items.len() - k,
{
    if k < 0 || k >= items.len() {
        Seq::empty()
    } else {
        let j = items[k] as int;
        if start_kind(tree.events@[j]) == SyntaxKind::Object {
            match node_value(tree, j) {
                Some(v) => seq![
                    FactView {
                        subject: context.subject,
                        subject_span: context.subject_span,
                        predicate: context.predicate,
                        predicate_span: context.predicate_span,
                        object: v,
                        object_span: Some(node_span(tree, j)),
                        statement_span: context.statement_span,
                    },
                ] + list_facts(tree, items, k + 1, Some((v, node_span(tree, j))), context),
                None => list_facts(tree, items, k + 1, None, context),
            }
        } else {
            match current {
                Some((v, span)) => decoration_facts(tree, j, v, Some(span)) + list_facts(
                    tree,
                    items,
                    k + 1,
                    current,
                    context,
                ),
                None => list_facts(tree, items, k + 1, None, context),
            }
        }
    }
}

/// The facts of the predicates `preds[p..]`, each with the object list
/// at the same position.
#[verifier::opaque]
pub open spec fn pairs_facts(
    tree: &SyntaxTree,
    preds: Seq<usize>,
    lists: Seq<usize>,
    p: int,
    subject: ValueView,
    subject_span: Option<SourceSpan>,
    statement_span: SourceSpan,
) -> Seq<FactView>
    decreases preds.len() - p,
{
    if p < 0 || p >= preds.len() || p >= lists.len() {
        Seq::empty()
    } else {
        let context = FactContext {
            subject,
            subject_span,
            predicate: ValueView::Predicate(predicate_text_spec(node_text_spec(tree, preds[p] as int))),
            predicate_span: Some(node_span(tree, preds[p] as int)),
            statement_span,
        };
        list_facts(
            tree,
            selection(tree.events@, lists[p] as int, seq![SyntaxKind::Object, SyntaxKind::Decoration], false),
            0,
            None,
            context,
        ) + pairs_facts(tree, preds, lists, p + 1, subject, subject_span, statement_span)
    }
}

/// The facts of statement `s`: those of its subject's decorations, then
/// one per predicate and object; none without a subject.
#[verifier::opaque]
pub open spec fn statement_facts(tree: &SyntaxTree, s: int, ambient: Option<ValueView>) -> Seq<FactView> {
    let (subject, subject_span) = subject_of(tree, s, ambient);
    match subject {
        None => Seq::empty(),
        Some(v) => decorations_facts(
            tree,
            selection(tree.events@, s, seq![SyntaxKind::Decoration], false),
            0,
            v,
            subject_span,
        ) + pairs_facts(
            tree,
            selection(tree.events@, s, seq![SyntaxKind::Predicate], false),
            selection(tree.events@, s, seq![SyntaxKind::ObjectList], false),
            0,
            v,
            subject_span,
            node_span(tree, s),
        ),
    }
}

/// The facts of the statements `stmts[k..]`, in order.
#[verifier::opaque]
pub open spec fn expansion_facts(tree: &SyntaxTree, stmts: Seq<usize>, k: int, ambient: Option<ValueView>) -> Seq<
    FactView,
>
    decreases stmts.len() - k,
{
    if k < 0 || k >= stmts.len() {
        Seq::empty()
    } else {
        statement_facts(tree, stmts[k] as int, ambient) + expansion_facts(tree, stmts, k + 1, ambient)
    }
}

/// An error of expansion read by its code and span.
pub type ErrorView = (DiagnosticCode, Option<SourceSpan>);

/// Diagnostics read by code and span.
pub open spec fn errors_view(d: Seq<Diagnostic>) -> Seq<ErrorView> {
    d.map_values(|x: Diagnostic| (x.code, x.span))
}

/// The error a value earns where it is used: a number literal outside
/// the finite range.
pub open spec fn number_errors(v: ValueView, span: Option<SourceSpan>) -> Seq<ErrorView> {
    if v is InvalidNumber {
        seq![(DiagnosticCode::InvalidNumber, span)]
    } else {
        Seq::empty()
    }
}

/// The error of decoration `d`: it holds no quoted string.
pub open spec fn decoration_errors(tree: &SyntaxTree, d: int) -> Seq<ErrorView> {
    let strings = selection(tree.events@, d, seq![SyntaxKind::String, SyntaxKind::TripleString], false);
    if strings.len() > 0 && node_value(tree, strings[0] as int) is Some {
        Seq::empty()
    } else {
        seq![(DiagnosticCode::InvalidDecorationTarget, Some(node_span(tree, d)))]
    }
}

/// The errors of the decorations `ds[k..]`.
#[verifier::opaque]
pub open spec fn decorations_errors(tree: &SyntaxTree, ds: Seq<usize>, k: int) -> Seq<ErrorView>
    decreases ds.len() - k,
{
    if k < 0 || k >= ds.len() {
        Seq::empty()
    } else {
        decoration_errors(tree, ds[k] as int) + decorations_errors(tree, ds, k + 1)
    }
}

/// The errors of the objects and decorations `items[k..]` of an object
/// list; a decoration counts only after an object with a value
/// (`current`).
#[verifier::opaque]
pub open spec fn list_errors(tree: &SyntaxTree, items: Seq<usize>, k: int, current: bool) -> Seq<ErrorView>
    decreases items.len() - k,
{
    if k < 0 || k >= items.len() {
        Seq::empty()
    } else {
        let j = items[k] as int;
        if start_kind(tree.events@[j]) == SyntaxKind::Object {
            match node_value(tree, j) {
                Some(v) => number_errors(v, Some(node_span(tree, j))) + list_errors(tree, items, k + 1, true),
                None => list_errors(tree, items, k + 1, false),
            }
        } else if current {
            decoration_errors(tree, j) + list_errors(tree, items, k + 1, current)
        } else {
            list_errors(tree, items, k + 1, current)
        }
    }
}

/// The errors of the object lists `lists[p..]` that have a predicate.
#[verifier::opaque]
pub open spec fn pairs_errors(tree: &SyntaxTree, preds: Seq<usize>, lists: Seq<usize>, p: int) -> Seq<ErrorView>
    decreases preds.len() - p,
{
    if p < 0 || p >= preds.len() || p >= lists.len() {
        Seq::empty()
    } else {
        list_errors(
            tree,
            selection(tree.events@, lists[p] as int, seq![SyntaxKind::Object, SyntaxKind::Decoration], false),
            0,
            false,
        ) + pairs_errors(tree, preds, lists, p + 1)
    }
}

/// The errors of statement `s`: without a subject, that it needs an
/// ambient one; else its subject's, its decorations' and its objects'.
#[verifier::opaque]
pub open spec fn statement_errors(tree: &SyntaxTree, s: int, ambient: Option<ValueView>) -> Seq<ErrorView> {
    let (subject, subject_span) = subject_of(tree, s, ambient);
    match subject {
        None => seq![(DiagnosticCode::MissingAmbientSubject, Some(node_span(tree, s)))],
        Some(v) => number_errors(v, subject_span) + decorations_errors(
            tree,
            selection(tree.events@, s, seq![SyntaxKind::Decoration], false),
            0,
        ) + pairs_errors(
            tree,
            selection(tree.events@, s, seq![SyntaxKind::Predicate], false),
            selection(tree.events@, s, seq![SyntaxKind::ObjectList], false),
            0,
        ),
    }
}

/// The errors of the statements `stmts[k..]`, in order.
#[verifier::opaque]
pub open spec fn expansion_errors(tree: &SyntaxTree, stmts: Seq<usize>, k: int, ambient: Option<ValueView>) -> Seq<
    ErrorView,
>
    decreases stmts.len() - k,
{
    if k < 0 || k >= stmts.len() {
        Seq::empty()
    } else {
        statement_errors(tree, stmts[k] as int, ambient) + expansion_errors(tree, stmts, k + 1, ambient)
    }
}

/// The nearest enclosing `{{ ... }}` block of a node.
fn enclosing_block<'a>(node: SyntaxNode<'a>) -> (r: Option<SyntaxNode<'a>>)
    requires
        node.valid(),
    ensures
        r matches Some(b) ==> b.tree == node.tree && b.valid() && start_kind(
            node.tree.events@[b.index as int],
        ) == SyntaxKind::IntralineaBlock,
        match enclosing_block_spec(node.tree.events@, node.index as int) {
            Some(j) => r matches Some(b) && b.index == j,
            None => r is None,
        },
{
    let mut current = node;
    loop
        invariant
            current.valid(),
            current.tree == node.tree,
            enclosing_block_spec(node.tree.events@, current.index as int) == enclosing_block_spec(
                node.tree.events@,
                node.index as int,
            ),
        decreases current.index,
    {
        match current.parent() {
            Some(p) => {
                if p.kind() == SyntaxKind::IntralineaBlock {
                    return Some(p);
                }
                current = p;
            },
            None => {
                return None;
            },
        }
    }
}

/// The local subject a statement's marker (`<`, `>>`, `~<>` ...) stands
/// for, with the marker's span.
fn local_subject_value(statement: &SyntaxNode) -> (r: Option<(Value, SourceSpan)>)
    requires
        statement.valid(),
    ensures
        match local_subject_spec(statement.tree, statement.index as int) {
            Some((v, span)) => r matches Some((x, sp)) && x@ == v && sp == span,
            None => r is None,
        },
        match first_of_spec(
            statement.tree.events@,
            statement.index as int,
            seq![SyntaxKind::LocalSubjectMarker],
            false,
        ) {
            None => r is None,
            Some(j) => match marker_meaning(node_text_spec(statement.tree, j)) {
                None => r is None,
                Some((scope, region, text_span)) => r matches Some((v, span)) ==> (v@ matches ValueView::LocalSubject(l) && l.marker == node_text_spec(statement.tree, j)
                    && l.scope == scope && l.region == region && l.text_span == text_span
                    && span_in(l.block_span, utf8_len(statement.tree.source@) as int))
                    && span_in(span, utf8_len(statement.tree.source@) as int),
            },
        },
{
    proof {
        reveal(local_subject_spec);
    }
    let kinds = [SyntaxKind::LocalSubjectMarker];
    assert(kinds@ =~= seq![SyntaxKind::LocalSubjectMarker]);
    let marker_node = match statement.first_of(&kinds, false) {
        Some(n) => n,
        None => {
            return None;
        },
    };
    let marker = marker_node.text();
    let (scope, region, text_span) = match marker_meaning_of(chars_of(marker.as_str()).as_slice()) {
        Some(m) => m,
        None => {
            return None;
        },
    };
    let block = match enclosing_block(marker_node) {
        Some(b) => b,
        None => {
            return None;
        },
    };
    let span = marker_node.source_span();
    Some(
        (
            Value::LocalSubject(
                LocalSubject { marker, scope, region, text_span, block_span: block.source_span() },
            ),
            span,
        ),
    )
}


/// Every span of a fact lies inside a source of `total` bytes.
pub open spec fn statement_located(st: ExpandedStatement, total: int) -> bool {
    &&& span_in(st.statement_span, total)
    &&& opt_span_in(st.subject_span, total)
    &&& opt_span_in(st.predicate_span, total)
    &&& opt_span_in(st.object_span, total)
}

/// The errors expansion itself reports.
pub open spec fn expansion_error(d: Diagnostic, total: int) -> bool {
    &&& d.severity == Severity::Error
    &&& (d.code == DiagnosticCode::MissingAmbientSubject || d.code
        == DiagnosticCode::InvalidDecorationTarget || d.code == DiagnosticCode::InvalidNumber)
    &&& opt_span_in(d.span, total)
}

/// `new` extends `old` with located facts and expansion errors only.
pub open spec fn extends(old: &ExpandResult, new: &ExpandResult, total: int) -> bool {
    &&& old.statements@.len() <= new.statements@.len()
    &&& new.statements@.subrange(0, old.statements@.len() as int) == old.statements@
    &&& forall|k: int|
        old.statements@.len() <= k < new.statements@.len() ==> statement_located(
            #[trigger] new.statements@[k],
            total,
        )
    &&& old.diagnostics@.len() <= new.diagnostics@.len()
    &&& new.diagnostics@.subrange(0, old.diagnostics@.len() as int) == old.diagnostics@
    &&& forall|k: int|
        old.diagnostics@.len() <= k < new.diagnostics@.len() ==> expansion_error(
            #[trigger] new.diagnostics@[k],
            total,
        )
}

proof fn lemma_extends_trans(a: &ExpandResult, b: &ExpandResult, c: &ExpandResult, total: int)
    requires
        extends(a, b, total),
        extends(b, c, total),
    ensures
        extends(a, c, total),
{
    assert forall|k: int| a.statements@.len() <= k < c.statements@.len() implies statement_located(
        #[trigger] c.statements@[k],
        total,
    ) by {
        if k < b.statements@.len() {
            assert(c.statements@[k] == c.statements@.subrange(0, b.statements@.len() as int)[k]);
        }
    }
    assert forall|k: int| a.diagnostics@.len() <= k < c.diagnostics@.len() implies expansion_error(
        #[trigger] c.diagnostics@[k],
        total,
    ) by {
        if k < b.diagnostics@.len() {
            assert(c.diagnostics@[k] == c.diagnostics@.subrange(0, b.diagnostics@.len() as int)[k]);
        }
    }
    assert(c.statements@.subrange(0, a.statements@.len() as int) =~= a.statements@) by {
        assert forall|k: int| 0 <= k < a.statements@.len() implies c.statements@[k] == a.statements@[k] by {
            assert(c.statements@[k] == c.statements@.subrange(0, b.statements@.len() as int)[k]);
            assert(b.statements@[k] == b.statements@.subrange(0, a.statements@.len() as int)[k]);
        }
    }
    assert(c.diagnostics@.subrange(0, a.diagnostics@.len() as int) =~= a.diagnostics@) by {
        assert forall|k: int| 0 <= k < a.diagnostics@.len() implies c.diagnostics@[k] == a.diagnostics@[k] by {
            assert(c.diagnostics@[k] == c.diagnostics@.subrange(0, b.diagnostics@.len() as int)[k]);
            assert(b.diagnostics@[k] == b.diagnostics@.subrange(0, a.diagnostics@.len() as int)[k]);
        }
    }
}

fn push_statement(result: &mut ExpandResult, st: ExpandedStatement, Ghost(total): Ghost<int>)
    requires
        statement_located(st, total),
    ensures
        extends(old(result), final(result), total),
        final(result).statements@ == old(result).statements@.push(st),
        final(result).diagnostics == old(result).diagnostics,
{
    result.statements.push(st);
    assert(result.statements@.subrange(0, old(result).statements@.len() as int) =~= old(result).statements@);
    assert(result.diagnostics@.subrange(0, old(result).diagnostics@.len() as int) =~= old(result).diagnostics@);
}

fn push_error(result: &mut ExpandResult, d: Diagnostic, Ghost(total): Ghost<int>)
    requires
        expansion_error(d, total),
    ensures
        extends(old(result), final(result), total),
        final(result).diagnostics@ == old(result).diagnostics@.push(d),
        final(result).statements == old(result).statements,
        errors_view(final(result).diagnostics@) == errors_view(old(result).diagnostics@).push((d.code, d.span)),
{
    result.diagnostics.push(d);
    assert(errors_view(result.diagnostics@) =~= errors_view(old(result).diagnostics@).push((d.code, d.span)));
    assert(result.statements@.subrange(0, old(result).statements@.len() as int) =~= old(result).statements@);
    assert(result.diagnostics@.subrange(0, old(result).diagnostics@.len() as int) =~= old(result).diagnostics@);
}

/// The `note` predicate of decoration facts.
pub open spec fn note_predicate() -> ValueView {
    ValueView::Predicate(seq!['n', 'o', 't', 'e'])
}

/// Turns a decoration into a `note` fact about `subject`, or reports it
/// when it holds no quoted string.
fn push_decoration(
    subject: &Value,
    subject_span: &Option<SourceSpan>,
    decoration: &SyntaxNode,
    result: &mut ExpandResult,
)
    requires
        decoration.valid(),
        opt_span_in(*subject_span, utf8_len(decoration.tree.source@) as int),
    ensures
        extends(old(result), final(result), utf8_len(decoration.tree.source@) as int),
        final(result).statements@.len() + final(result).diagnostics@.len() == old(result).statements@.len() + old(result).diagnostics@.len() + 1,
        final(result).statements@.len() > old(result).statements@.len() ==> ({
            let st = final(result).statements@.last();
            &&& st.subject@ == subject@
            &&& st.subject_span == *subject_span
            &&& st.predicate@ == note_predicate()
            &&& st.predicate_span is None
        }),
        final(result).diagnostics@.len() > old(result).diagnostics@.len() ==> final(result).diagnostics@.last().code == DiagnosticCode::InvalidDecorationTarget,
        facts_view(final(result).statements@) == facts_view(old(result).statements@) + decoration_facts(
            decoration.tree,
            decoration.index as int,
            subject@,
            *subject_span,
        ),
        errors_view(final(result).diagnostics@) == errors_view(old(result).diagnostics@) + decoration_errors(
            decoration.tree,
            decoration.index as int,
        ),
{
    let ghost total = utf8_len(decoration.tree.source@) as int;
    proof {
        reveal(decoration_facts);
    }
    let string_kinds = [SyntaxKind::String, SyntaxKind::TripleString];
    assert(string_kinds@ =~= seq![SyntaxKind::String, SyntaxKind::TripleString]);
    let children = decoration.children_of(&string_kinds);
    proof {
        if children@.len() > 0 {
            assert(indices_of(children@)[0] == children@[0].index);
        }
        assert(facts_view(old(result).statements@) + Seq::<FactView>::empty() =~= facts_view(old(result).statements@));
    }
    let object = if children.len() > 0 {
        match value_from_node(&children[0]) {
            Some(v) => Some((v, children[0].source_span())),
            None => None,
        }
    } else {
        None
    };
    match object {
        None => {
            let message = string_of(&[
                'D', 'e', 'c', 'o', 'r', 'a', 't', 'i', 'o', 'n', ' ', 'r', 'e', 'q', 'u', 'i', 'r',
                'e', 's', ' ', 'a', ' ', 'q', 'u', 'o', 't', 'e', 'd', ' ', 's', 't', 'r', 'i', 'n',
                'g',
            ]);
            push_error(
                result,
                Diagnostic {
                    code: DiagnosticCode::InvalidDecorationTarget,
                    severity: Severity::Error,
                    message,
                    span: Some(decoration.source_span()),
                    related: Vec::new(),
                },
                Ghost(total),
            );
            assert(errors_view(result.diagnostics@) =~= errors_view(old(result).diagnostics@) + decoration_errors(
                decoration.tree,
                decoration.index as int,
            ));
        },
        Some((object, object_span)) => {
            let note = string_of(&['n', 'o', 't', 'e']);
            assert(['n', 'o', 't', 'e']@ =~= seq!['n', 'o', 't', 'e']);
            push_statement(
                result,
                ExpandedStatement {
                    subject: subject.duplicate(),
                    subject_span: copy_span(subject_span),
                    predicate: Value::Predicate(note),
                    predicate_span: None,
                    object,
                    object_span: Some(object_span),
                    statement_span: decoration.source_span(),
                },
                Ghost(total),
            );
            proof {
                assert(facts_view(result.statements@) =~= facts_view(old(result).statements@) + seq![result.statements@.last()@]);
                assert(errors_view(result.diagnostics@) =~= errors_view(old(result).diagnostics@) + decoration_errors(
                    decoration.tree,
                    decoration.index as int,
                ));
            }
        },
    }
}

/// Records an `InvalidNumber` error for a number literal outside the
/// finite range.
fn diagnose_invalid_number(value: &Value, span: &Option<SourceSpan>, result: &mut ExpandResult, Ghost(total): Ghost<int>)
    requires
        opt_span_in(*span, total),
    ensures
        extends(old(result), final(result), total),
        final(result).statements == old(result).statements,
        value is InvalidNumber ==> final(result).diagnostics@.len() == old(result).diagnostics@.len() + 1
            && final(result).diagnostics@.last().code == DiagnosticCode::InvalidNumber
            && final(result).diagnostics@.last().span == *span,
        !(value is InvalidNumber) ==> final(result).diagnostics == old(result).diagnostics,
        errors_view(final(result).diagnostics@) == errors_view(old(result).diagnostics@) + number_errors(value@, *span),
{
    if let Value::InvalidNumber(source) = value {
        let mut message = string_of(&[
            'J', 'S', 'O', 'N', ' ', 'n', 'u', 'm', 'b', 'e', 'r', ' ', 'i', 's', ' ', 'o', 'u', 't',
            's', 'i', 'd', 'e', ' ', 't', 'h', 'e', ' ', 'f', 'i', 'n', 'i', 't', 'e', ' ', 'r', 'a',
            'n', 'g', 'e', ':', ' ',
        ]);
        message.append(source.as_str());
        push_error(
            result,
            Diagnostic {
                code: DiagnosticCode::InvalidNumber,
                severity: Severity::Error,
                message,
                span: copy_span(span),
                related: Vec::new(),
            },
            Ghost(total),
        );
        assert(errors_view(result.diagnostics@) =~= errors_view(old(result).diagnostics@) + number_errors(value@, *span));
    } else {
        assert(result.statements@.subrange(0, result.statements@.len() as int) =~= result.statements@);
        assert(result.diagnostics@.subrange(0, result.diagnostics@.len() as int) =~= result.diagnostics@);
        assert(errors_view(result.diagnostics@) =~= errors_view(old(result).diagnostics@) + number_errors(value@, *span));
    }
}

/// The subject a statement's facts are about: its own subject value, else
/// its local subject marker, else the ambient subject.
fn statement_subject(statement: &SyntaxNode, options: &ExpandOptions) -> (r: (Option<Value>, Option<SourceSpan>))
    requires
        statement.valid(),
    ensures
        opt_span_in(r.1, utf8_len(statement.tree.source@) as int),
        (option_view(r.0), r.1) == subject_of(statement.tree, statement.index as int, option_view(options.ambient_subject)),
{
    proof {
        reveal(subject_of);
    }
    let subject_kinds = [SyntaxKind::Subject];
    assert(subject_kinds@ =~= seq![SyntaxKind::Subject]);
    let explicit = statement.children_of(&subject_kinds);
    proof {
        if explicit@.len() > 0 {
            assert(indices_of(explicit@)[0] == explicit@[0].index);
        }
    }
    let mut subject_span: Option<SourceSpan> = None;
    let mut explicit_value: Option<Value> = None;
    if explicit.len() > 0 {
        subject_span = Some(explicit[0].source_span());
        explicit_value = value_from_node(&explicit[0]);
    }
    match explicit_value {
        Some(v) => (Some(v), subject_span),
        None => match local_subject_value(statement) {
            Some((v, span)) => (Some(v), Some(span)),
            None => match &options.ambient_subject {
                Some(a) => (Some(a.duplicate()), subject_span),
                None => (None, subject_span),
            },
        },
    }
}

/// The last object seen in an object list, with its span, as plain
/// values.
pub open spec fn current_view(current: Option<(Value, SourceSpan)>) -> Option<(ValueView, SourceSpan)> {
    match current {
        Some((v, span)) => Some((v@, span)),
        None => None,
    }
}

/// Expands one object list of a statement: a fact per object with a
/// value, each followed by the `note` facts of the decorations after it.
#[verifier::rlimit(60)]
#[verifier::spinoff_prover]
fn expand_object_list(
    list: &SyntaxNode,
    subject: &Value,
    subject_span: &Option<SourceSpan>,
    predicate: &Value,
    predicate_span: &SourceSpan,
    statement_span: &SourceSpan,
    result: &mut ExpandResult,
)
    requires
        list.valid(),
        opt_span_in(*subject_span, utf8_len(list.tree.source@) as int),
        span_in(*predicate_span, utf8_len(list.tree.source@) as int),
        span_in(*statement_span, utf8_len(list.tree.source@) as int),
    ensures
        extends(old(result), final(result), utf8_len(list.tree.source@) as int),
        facts_view(final(result).statements@) == facts_view(old(result).statements@) + list_facts(
            list.tree,
            selection(list.tree.events@, list.index as int, seq![SyntaxKind::Object, SyntaxKind::Decoration], false),
            0,
            None,
            FactContext {
                subject: subject@,
                subject_span: *subject_span,
                predicate: predicate@,
                predicate_span: Some(*predicate_span),
                statement_span: *statement_span,
            },
        ),
        errors_view(final(result).diagnostics@) == errors_view(old(result).diagnostics@) + list_errors(
            list.tree,
            selection(list.tree.events@, list.index as int, seq![SyntaxKind::Object, SyntaxKind::Decoration], false),
            0,
            false,
        ),
{
    let ghost total = utf8_len(list.tree.source@) as int;
    let ghost context = FactContext {
        subject: subject@,
        subject_span: *subject_span,
        predicate: predicate@,
        predicate_span: Some(*predicate_span),
        statement_span: *statement_span,
    };
    let item_kinds = [SyntaxKind::Object, SyntaxKind::Decoration];
    assert(item_kinds@ =~= seq![SyntaxKind::Object, SyntaxKind::Decoration]);
    let items = list.children_of(&item_kinds);
    let ghost indices = indices_of(items@);
    let ghost start = *result;
    let mut current: Option<(Value, SourceSpan)> = None;
    assert(result.statements@.subrange(0, result.statements@.len() as int) =~= result.statements@);
    assert(result.diagnostics@.subrange(0, result.diagnostics@.len() as int) =~= result.diagnostics@);
    let mut o: usize = 0;
    while o < items.len()
        invariant
            o <= items@.len(),
            list.valid(),
            total == utf8_len(list.tree.source@) as int,
            indices == indices_of(items@),
            indices == selection(list.tree.events@, list.index as int, seq![SyntaxKind::Object, SyntaxKind::Decoration], false),
            forall|t: int| 0 <= t < items@.len() ==> (#[trigger] items@[t]).tree == list.tree && items@[t].valid(),
            opt_span_in(*subject_span, total),
            span_in(*predicate_span, total),
            span_in(*statement_span, total),
            current matches Some((v, span)) ==> span_in(span, total),
            context == (FactContext {
                subject: subject@,
                subject_span: *subject_span,
                predicate: predicate@,
                predicate_span: Some(*predicate_span),
                statement_span: *statement_span,
            }),
            extends(&start, result, total),
            facts_view(result.statements@) + list_facts(list.tree, indices, o as int, current_view(current), context)
                == facts_view(start.statements@) + list_facts(list.tree, indices, 0, None, context),
            errors_view(result.diagnostics@) + list_errors(list.tree, indices, o as int, current is Some)
                == errors_view(start.diagnostics@) + list_errors(list.tree, indices, 0, false),
        decreases items@.len() - o,
    {
        let item = items[o];
        let ghost before = *result;
        let ghost cur0 = current_view(current);
        let ghost has0 = current is Some;
        proof {
            reveal_with_fuel(list_facts, 1);
            reveal_with_fuel(list_errors, 1);
        }
        assert(indices[o as int] == item.index);
        if item.kind() == SyntaxKind::Object {
            match value_from_node(&item) {
                None => {
                    current = None;
                    assert(list_facts(list.tree, indices, o as int, cur0, context) == list_facts(
                        list.tree,
                        indices,
                        o + 1,
                        None,
                        context,
                    ));
                    assert(list_errors(list.tree, indices, o as int, has0) == list_errors(list.tree, indices, o + 1, false));
                },
                Some(value) => {
                    let object_span = item.source_span();
                    let ghost b1 = *result;
                    diagnose_invalid_number(&value, &Some(object_span.duplicate()), result, Ghost(total));
                    let ghost b2 = *result;
                    push_statement(
                        result,
                        ExpandedStatement {
                            subject: subject.duplicate(),
                            subject_span: copy_span(subject_span),
                            predicate: predicate.duplicate(),
                            predicate_span: Some(predicate_span.duplicate()),
                            object: value.duplicate(),
                            object_span: Some(object_span.duplicate()),
                            statement_span: statement_span.duplicate(),
                        },
                        Ghost(total),
                    );
                    proof {
                        lemma_extends_trans(&start, &b1, &b2, total);
                        lemma_extends_trans(&start, &b2, result, total);
                        let fact = result.statements@.last()@;
                        assert(facts_view(result.statements@) =~= facts_view(b2.statements@) + seq![fact]);
                        let rest = list_facts(list.tree, indices, o + 1, Some((value@, object_span)), context);
                        assert(start_kind(list.tree.events@[item.index as int]) == SyntaxKind::Object);
                        assert(node_value(list.tree, item.index as int) == Some(value@));
                        assert(object_span == crate::tree::node_span(list.tree, item.index as int));
                        assert(fact == FactView {
                            subject: context.subject,
                            subject_span: context.subject_span,
                            predicate: context.predicate,
                            predicate_span: context.predicate_span,
                            object: value@,
                            object_span: Some(object_span),
                            statement_span: context.statement_span,
                        });
                        assert(list_facts(list.tree, indices, o as int, cur0, context) == seq![fact] + rest);
                        assert(facts_view(result.statements@) + rest =~= facts_view(before.statements@) + (seq![fact] + rest));
                        let added = number_errors(value@, Some(object_span));
                        let erest = list_errors(list.tree, indices, o + 1, true);
                        assert(list_errors(list.tree, indices, o as int, has0) == added + erest);
                        assert(errors_view(result.diagnostics@) + erest =~= errors_view(before.diagnostics@) + (added + erest));
                    }
                    current = Some((value, object_span));
                },
            }
        } else {
            match &current {
                Some((value, span)) => {
                    push_decoration(value, &Some(span.duplicate()), &item, result);
                    proof {
                        lemma_extends_trans(&start, &before, result, total);
                        let added = decoration_facts(list.tree, item.index as int, value@, Some(*span));
                        let rest = list_facts(list.tree, indices, o + 1, cur0, context);
                        assert(list_facts(list.tree, indices, o as int, cur0, context) == added + rest);
                        assert(facts_view(result.statements@) + rest =~= facts_view(before.statements@) + (added + rest));
                        let eadded = decoration_errors(list.tree, item.index as int);
                        let erest = list_errors(list.tree, indices, o + 1, true);
                        assert(list_errors(list.tree, indices, o as int, has0) == eadded + erest);
                        assert(errors_view(result.diagnostics@) + erest =~= errors_view(before.diagnostics@) + (eadded + erest));
                    }
                },
                None => {
                    assert(list_facts(list.tree, indices, o as int, cur0, context) == list_facts(
                        list.tree,
                        indices,
                        o + 1,
                        None,
                        context,
                    ));
                    assert(list_errors(list.tree, indices, o as int, has0) == list_errors(list.tree, indices, o + 1, false));
                },
            }
        }
        o = o + 1;
    }
    proof {
        reveal_with_fuel(list_facts, 1);
        reveal_with_fuel(list_errors, 1);
        assert(facts_view(result.statements@) + Seq::<FactView>::empty() =~= facts_view(result.statements@));
        assert(errors_view(result.diagnostics@) + Seq::<ErrorView>::empty() =~= errors_view(result.diagnostics@));
    }
}

/// Expands one statement: the `note` facts of its subject's decorations,
/// then one fact per predicate and object.
fn expand_statement(statement: &SyntaxNode, options: &ExpandOptions, result: &mut ExpandResult)
    requires
        statement.valid(),
    ensures
        extends(old(result), final(result), utf8_len(statement.tree.source@) as int),
        facts_view(final(result).statements@) == facts_view(old(result).statements@) + statement_facts(
            statement.tree,
            statement.index as int,
            option_view(options.ambient_subject),
        ),
        errors_view(final(result).diagnostics@) == errors_view(old(result).diagnostics@) + statement_errors(
            statement.tree,
            statement.index as int,
            option_view(options.ambient_subject),
        ),
{
    let ghost total = utf8_len(statement.tree.source@) as int;
    let ghost tree = statement.tree;
    let statement_span = statement.source_span();
    let (subject, subject_span) = statement_subject(statement, options);
    let subject = match subject {
        Some(s) => s,
        None => {
            let message = string_of(&[
                'S', 'u', 'b', 'j', 'e', 'c', 't', 'l', 'e', 's', 's', ' ', 's', 't', 'a', 't', 'e',
                'm', 'e', 'n', 't', ' ', 'r', 'e', 'q', 'u', 'i', 'r', 'e', 's', ' ', 'a', 'n', ' ',
                'a', 'm', 'b', 'i', 'e', 'n', 't', ' ', 's', 'u', 'b', 'j', 'e', 'c', 't',
            ]);
            push_error(
                result,
                Diagnostic {
                    code: DiagnosticCode::MissingAmbientSubject,
                    severity: Severity::Error,
                    message,
                    span: Some(statement_span),
                    related: Vec::new(),
                },
                Ghost(total),
            );
            proof {
                reveal(statement_facts);
                reveal(statement_errors);
            }
            assert(facts_view(result.statements@) =~= facts_view(old(result).statements@) + Seq::<FactView>::empty());
            assert(errors_view(result.diagnostics@) =~= errors_view(old(result).diagnostics@) + statement_errors(
                statement.tree,
                statement.index as int,
                option_view(options.ambient_subject),
            ));
            return ;
        },
    };
    let ghost start = *result;
    diagnose_invalid_number(&subject, &subject_span, result, Ghost(total));
    let decoration_kinds = [SyntaxKind::Decoration];
    assert(decoration_kinds@ =~= seq![SyntaxKind::Decoration]);
    let decorations = statement.children_of(&decoration_kinds);
    let ghost ds = indices_of(decorations@);
    let mut k: usize = 0;
    while k < decorations.len()
        invariant
            k <= decorations@.len(),
            statement.valid(),
            total == utf8_len(statement.tree.source@) as int,
            opt_span_in(subject_span, total),
            ds == indices_of(decorations@),
            forall|t: int|
                0 <= t < decorations@.len() ==> (#[trigger] decorations@[t]).tree == statement.tree
                    && decorations@[t].valid(),
            extends(&start, result, total),
            facts_view(result.statements@) + decorations_facts(statement.tree, ds, k as int, subject@, subject_span)
                == facts_view(start.statements@) + decorations_facts(statement.tree, ds, 0, subject@, subject_span),
            errors_view(result.diagnostics@) + decorations_errors(statement.tree, ds, k as int) == errors_view(
                start.diagnostics@,
            ) + number_errors(subject@, subject_span) + decorations_errors(statement.tree, ds, 0),
        decreases decorations@.len() - k,
    {
        let ghost before = *result;
        assert(ds[k as int] == decorations@[k as int].index);
        push_decoration(&subject, &subject_span, &decorations[k], result);
        proof {
            lemma_extends_trans(&start, &before, result, total);
            reveal_with_fuel(decorations_facts, 1);
            let added = decoration_facts(statement.tree, ds[k as int] as int, subject@, subject_span);
            let rest = decorations_facts(statement.tree, ds, k + 1, subject@, subject_span);
            assert(decorations_facts(statement.tree, ds, k as int, subject@, subject_span) == added + rest);
            assert(facts_view(result.statements@) + rest =~= facts_view(before.statements@) + (added + rest));
            reveal_with_fuel(decorations_errors, 1);
            let eadded = decoration_errors(statement.tree, ds[k as int] as int);
            let erest = decorations_errors(statement.tree, ds, k + 1);
            assert(decorations_errors(statement.tree, ds, k as int) == eadded + erest);
            assert(errors_view(result.diagnostics@) + erest =~= errors_view(before.diagnostics@) + (eadded + erest));
        }
        k = k + 1;
    }
    proof {
        reveal_with_fuel(decorations_facts, 1);
        reveal_with_fuel(decorations_errors, 1);
        assert(facts_view(result.statements@) + Seq::<FactView>::empty() =~= facts_view(result.statements@));
        assert(errors_view(result.diagnostics@) + Seq::<ErrorView>::empty() =~= errors_view(result.diagnostics@));
    }
    let ghost middle = *result;
    let predicate_kinds = [SyntaxKind::Predicate];
    assert(predicate_kinds@ =~= seq![SyntaxKind::Predicate]);
    let list_kinds = [SyntaxKind::ObjectList];
    assert(list_kinds@ =~= seq![SyntaxKind::ObjectList]);
    let predicates = statement.children_of(&predicate_kinds);
    let lists = statement.children_of(&list_kinds);
    let ghost preds = indices_of(predicates@);
    let ghost list_indices = indices_of(lists@);
    let mut p: usize = 0;
    while p < predicates.len() && p < lists.len()
        invariant
            p <= predicates@.len(),
            statement.valid(),
            total == utf8_len(statement.tree.source@) as int,
            span_in(statement_span, total),
            statement_span == crate::tree::node_span(statement.tree, statement.index as int),
            opt_span_in(subject_span, total),
            preds == indices_of(predicates@),
            list_indices == indices_of(lists@),
            forall|t: int|
                0 <= t < predicates@.len() ==> (#[trigger] predicates@[t]).tree == statement.tree
                    && predicates@[t].valid(),
            forall|t: int|
                0 <= t < lists@.len() ==> (#[trigger] lists@[t]).tree == statement.tree
                    && lists@[t].valid(),
            extends(&start, result, total),
            facts_view(result.statements@) + pairs_facts(statement.tree, preds, list_indices, p as int, subject@, subject_span, statement_span)
                == facts_view(middle.statements@) + pairs_facts(statement.tree, preds, list_indices, 0, subject@, subject_span, statement_span),
            errors_view(result.diagnostics@) + pairs_errors(statement.tree, preds, list_indices, p as int) == errors_view(
                middle.diagnostics@,
            ) + pairs_errors(statement.tree, preds, list_indices, 0),
        decreases predicates@.len() - p,
    {
        let ghost before = *result;
        let predicate_node = &predicates[p];
        assert(preds[p as int] == predicate_node.index);
        assert(list_indices[p as int] == lists@[p as int].index);
        let predicate_span = predicate_node.source_span();
        let predicate_string = predicate_node.text();
        let predicate_text = predicate_text_of(chars_of(predicate_string.as_str()).as_slice());
        let predicate = Value::Predicate(string_of(predicate_text.as_slice()));
        expand_object_list(&lists[p], &subject, &subject_span, &predicate, &predicate_span, &statement_span, result);
        proof {
            lemma_extends_trans(&start, &before, result, total);
            reveal_with_fuel(pairs_facts, 1);
            let context = FactContext {
                subject: subject@,
                subject_span,
                predicate: ValueView::Predicate(predicate_text_spec(node_text_spec(statement.tree, preds[p as int] as int))),
                predicate_span: Some(crate::tree::node_span(statement.tree, preds[p as int] as int)),
                statement_span,
            };
            let added = list_facts(
                statement.tree,
                selection(statement.tree.events@, list_indices[p as int] as int, seq![SyntaxKind::Object, SyntaxKind::Decoration], false),
                0,
                None,
                context,
            );
            let rest = pairs_facts(statement.tree, preds, list_indices, p + 1, subject@, subject_span, statement_span);
            assert(pairs_facts(statement.tree, preds, list_indices, p as int, subject@, subject_span, statement_span) == added + rest);
            assert(facts_view(result.statements@) + rest =~= facts_view(before.statements@) + (added + rest));
            reveal_with_fuel(pairs_errors, 1);
            let eadded = list_errors(
                statement.tree,
                selection(statement.tree.events@, list_indices[p as int] as int, seq![SyntaxKind::Object, SyntaxKind::Decoration], false),
                0,
                false,
            );
            let erest = pairs_errors(statement.tree, preds, list_indices, p + 1);
            assert(pairs_errors(statement.tree, preds, list_indices, p as int) == eadded + erest);
            assert(errors_view(result.diagnostics@) + erest =~= errors_view(before.diagnostics@) + (eadded + erest));
        }
        p = p + 1;
    }
    proof {
        reveal_with_fuel(pairs_facts, 1);
        reveal(statement_facts);
        assert(facts_view(result.statements@) + Seq::<FactView>::empty() =~= facts_view(result.statements@));
        assert(facts_view(result.statements@) + pairs_facts(statement.tree, preds, list_indices, p as int, subject@, subject_span, statement_span)
            == facts_view(result.statements@));
        assert(facts_view(result.statements@) =~= facts_view(old(result).statements@) + (decorations_facts(
            statement.tree,
            ds,
            0,
            subject@,
            subject_span,
        ) + pairs_facts(statement.tree, preds, list_indices, 0, subject@, subject_span, statement_span)));
        reveal_with_fuel(pairs_errors, 1);
        reveal(statement_errors);
        assert(errors_view(result.diagnostics@) + pairs_errors(statement.tree, preds, list_indices, p as int)
            =~= errors_view(result.diagnostics@));
        assert(errors_view(result.diagnostics@) =~= errors_view(old(result).diagnostics@) + (number_errors(
            subject@,
            subject_span,
        ) + decorations_errors(statement.tree, ds, 0) + pairs_errors(statement.tree, preds, list_indices, 0)));
    }
}

/// Expands every statement of a parse into facts, after the parse's own
/// diagnostics.
pub fn expand(parse: &Parse, options: ExpandOptions) -> (r: ExpandResult)
    requires
        parse.wf(),
    ensures
        r.diagnostics@.len() >= parse.diagnostics@.len(),
        same_diagnostics(r.diagnostics@.subrange(0, parse.diagnostics@.len() as int), parse.diagnostics@),
        forall|k: int|
            parse.diagnostics@.len() <= k < r.diagnostics@.len() ==> expansion_error(
                #[trigger] r.diagnostics@[k],
                utf8_len(parse.tree.source@) as int,
            ),
        forall|k: int|
            0 <= k < r.statements@.len() ==> statement_located(
                #[trigger] r.statements@[k],
                utf8_len(parse.tree.source@) as int,
            ),
        forall|k: int| 0 <= k < r.diagnostics@.len() ==> !(#[trigger] r.diagnostics@[k]).code.is_fragile(),
        facts_view(r.statements@) == expansion_facts(
            &parse.tree,
            selection(parse.tree.events@, 0, seq![SyntaxKind::Statement], true),
            0,
            option_view(options.ambient_subject),
        ),
        errors_view(r.diagnostics@.subrange(parse.diagnostics@.len() as int, r.diagnostics@.len() as int))
            == expansion_errors(
            &parse.tree,
            selection(parse.tree.events@, 0, seq![SyntaxKind::Statement], true),
            0,
            option_view(options.ambient_subject),
        ),
{
    let ghost total = utf8_len(parse.tree.source@) as int;
    let ghost ambient = option_view(options.ambient_subject);
    let mut result = ExpandResult {
        statements: Vec::new(),
        diagnostics: copy_diagnostics(parse.diagnostics()),
    };
    let ghost start = result;
    let root = parse.syntax();
    let statement_kinds = [SyntaxKind::Statement];
    assert(statement_kinds@ =~= seq![SyntaxKind::Statement]);
    let statements = root.descendants_of(&statement_kinds);
    let ghost stmts = indices_of(statements@);
    assert(facts_view(result.statements@) =~= Seq::<FactView>::empty());
    assert(result.statements@.subrange(0, 0) =~= result.statements@);
    assert(result.diagnostics@.subrange(0, result.diagnostics@.len() as int) =~= result.diagnostics@);
    let mut k: usize = 0;
    while k < statements.len()
        invariant
            k <= statements@.len(),
            total == utf8_len(parse.tree.source@) as int,
            forall|t: int|
                0 <= t < statements@.len() ==> (#[trigger] statements@[t]).tree == &parse.tree
                    && statements@[t].valid(),
            extends(&start, &result, total),
            stmts == indices_of(statements@),
            stmts == selection(parse.tree.events@, 0, seq![SyntaxKind::Statement], true),
            root.tree == &parse.tree,
            ambient == option_view(options.ambient_subject),
            facts_view(result.statements@) + expansion_facts(&parse.tree, stmts, k as int, ambient) == expansion_facts(
                &parse.tree,
                stmts,
                0,
                ambient,
            ),
            errors_view(result.diagnostics@) + expansion_errors(&parse.tree, stmts, k as int, ambient) == errors_view(
                start.diagnostics@,
            ) + expansion_errors(&parse.tree, stmts, 0, ambient),
        decreases statements@.len() - k,
    {
        let ghost before = result;
        assert(stmts[k as int] == statements@[k as int].index);
        expand_statement(&statements[k], &options, &mut result);
        proof {
            lemma_extends_trans(&start, &before, &result, total);
            reveal_with_fuel(expansion_facts, 1);
            let added = statement_facts(&parse.tree, stmts[k as int] as int, ambient);
            let rest = expansion_facts(&parse.tree, stmts, k + 1, ambient);
            assert(expansion_facts(&parse.tree, stmts, k as int, ambient) == added + rest);
            assert(facts_view(result.statements@) + rest =~= facts_view(before.statements@) + (added + rest));
            reveal_with_fuel(expansion_errors, 1);
            let eadded = statement_errors(&parse.tree, stmts[k as int] as int, ambient);
            let erest = expansion_errors(&parse.tree, stmts, k + 1, ambient);
            assert(expansion_errors(&parse.tree, stmts, k as int, ambient) == eadded + erest);
            assert(errors_view(result.diagnostics@) + erest =~= errors_view(before.diagnostics@) + (eadded + erest));
        }
        k = k + 1;
    }
    proof {
        reveal_with_fuel(expansion_facts, 1);
        reveal_with_fuel(expansion_errors, 1);
        assert(facts_view(result.statements@) + Seq::<FactView>::empty() =~= facts_view(result.statements@));
        let n = start.diagnostics@.len() as int;
        let all = errors_view(result.diagnostics@);
        assert(all =~= errors_view(start.diagnostics@) + expansion_errors(&parse.tree, stmts, 0, ambient));
        assert(errors_view(result.diagnostics@.subrange(n, result.diagnostics@.len() as int)) =~= all.subrange(
            n,
            all.len() as int,
        ));
        assert(all.subrange(n, all.len() as int) =~= expansion_errors(&parse.tree, stmts, 0, ambient));
    }
    assert(result.diagnostics@.subrange(0, parse.diagnostics@.len() as int) =~= result.diagnostics@.subrange(0, start.diagnostics@.len() as int));
    assert forall|k: int| 0 <= k < result.diagnostics@.len() implies !(#[trigger] result.diagnostics@[k]).code.is_fragile() by {
        if k < start.diagnostics@.len() {
            assert(result.diagnostics@[k] == result.diagnostics@.subrange(0, start.diagnostics@.len() as int)[k]);
            assert(start.diagnostics@[k].same(&parse.diagnostics@[k]));
        }
    }
    result
}

} // verus!
