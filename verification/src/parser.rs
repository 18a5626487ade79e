//! The lossless SnipX parser. Every input character is covered by
//! exactly one token of the resulting syntax tree, in order.
use vstd::prelude::*;
use crate::diagnostic::{Diagnostic, DiagnosticCode, Severity, SourceSpan};
use crate::scan::{
    find, find_spec, lemma_find_bounds, find_closing_fence, find_intralinea_close, find_line_end, find_next_marginalia_region,
    marginalia_fence_marker, marginalia_slash_marker, next_line_start, is_identifier_continue_spec, is_identifier_start,
    is_identifier_start_spec, is_line_start, in_class, lemma_skip_bounds, line_content_end,
    local_subject_marker_at, marker_spec, skip, skip_spec, snippet_contains_range, contains_range_spec, CharClass,
    LocalSubjectMarkerMatch, lemma_word_bounds, word_end, word_end_spec, line_marker_spec, closing_fence_scan,
    lemma_closing_fence_scan_bounds, marginalia_scan, next_line_start_spec, close_scan,
};
use crate::input::{InputForm, ParseOptions};
use crate::syntax::{
    lemma_tiles_end,
    balanced, extends_balanced, grown, kind_name, lemma_extends_prefix, lemma_grown_empty, lemma_grown_push,
    lemma_grown_refl, nest_step, tiles, SyntaxKind, TreeEvent,
};
use crate::tree::{build_tree, lemma_root_end, lemma_tiles_text, node_range_spec, root_spans_all, tokens_text, SyntaxNode, SyntaxTree};
use crate::text::{
    is_digit, is_digit_spec, is_lower, is_lower_spec, is_ws, is_ws_spec, lemma_utf8_prefix_mono,
    occurs_at, starts_with_at, utf8_len, utf8_prefix, chars_of, byte_offsets, string_of_range,
};

verus! {

/// The codes that parsing reports.
pub open spec fn is_syntax_code(code: DiagnosticCode) -> bool {
    ||| code == DiagnosticCode::ParseError
    ||| code == DiagnosticCode::UnterminatedSnippet
    ||| code == DiagnosticCode::UnterminatedString
    ||| code == DiagnosticCode::UnterminatedBlockComment
    ||| code == DiagnosticCode::UnterminatedIntralineaBlock
    ||| code == DiagnosticCode::InvalidDirectivePosition
    ||| code == DiagnosticCode::InvalidLocalSubjectMarker
}

/// Every diagnostic carries a span inside a source of `total` bytes and
/// a code that parsing reports (none of them a fragility warning).
pub open spec fn diagnostics_located(diagnostics: Seq<Diagnostic>, total: int) -> bool {
    forall|k: int|
        0 <= k < diagnostics.len() ==> {
            &&& (#[trigger] diagnostics[k]).span matches Some(span) && span.start <= span.end
                <= total
            &&& !diagnostics[k].code.is_fragile()
            &&& is_syntax_code(diagnostics[k].code)
        }
}

/// `offsets` holds the byte offset of every character boundary of `src`.
pub open spec fn offsets_of(src: Seq<char>, offsets: Seq<usize>) -> bool {
    &&& offsets.len() == src.len() + 1
    &&& forall|i: int| 0 <= i <= src.len() ==> #[trigger] offsets[i] == utf8_prefix(src, i)
}

/// A diagnostic located at the characters `start..end` of `src`.
pub fn located_diagnostic(
    code: DiagnosticCode,
    severity: Severity,
    message: &str,
    src: &[char],
    offsets: &[usize],
    start: usize,
    end: usize,
) -> (r: Diagnostic)
    requires
        offsets_of(src@, offsets@),
        start <= end <= src@.len(),
    ensures
        r.code == code,
        r.severity == severity,
        r.message@ == message@,
        r.related@.len() == 0,
        r.span == Some(
            SourceSpan { start: utf8_prefix(src@, start as int) as usize, end: utf8_prefix(src@, end as int) as usize },
        ),
        r.span matches Some(span) && span.start <= span.end <= utf8_len(src@),
{
    proof {
        lemma_utf8_prefix_mono(src@, start as int, end as int);
        lemma_utf8_prefix_mono(src@, end as int, src@.len() as int);
    }
    Diagnostic {
        code,
        severity,
        message: message.to_owned(),
        span: Some(SourceSpan { start: offsets[start], end: offsets[end] }),
        related: Vec::new(),
    }
}

pub proof fn lemma_push_located(diagnostics: Seq<Diagnostic>, d: Diagnostic, total: int)
    requires
        diagnostics_located(diagnostics, total),
        d.span matches Some(span) && span.start <= span.end <= total,
        is_syntax_code(d.code),
    ensures
        diagnostics_located(diagnostics.push(d), total),
{
    assert forall|k: int| 0 <= k < diagnostics.push(d).len() implies {
        &&& (#[trigger] diagnostics.push(d)[k]).span matches Some(span) && span.start <= span.end
            <= total
        &&& !diagnostics.push(d)[k].code.is_fragile()
        &&& is_syntax_code(diagnostics.push(d)[k].code)
    } by {
        if k < diagnostics.len() {
            assert(diagnostics.push(d)[k] == diagnostics[k]);
        }
    }
}

pub proof fn lemma_tiles_push_other(events: Seq<TreeEvent>, e: TreeEvent, a: int, b: int)
    requires
        tiles(events, a, b),
        !(e is Token),
    ensures
        tiles(events.push(e), a, b),
{
    assert(events.push(e).drop_last() =~= events);
}

pub proof fn lemma_tiles_push_token(events: Seq<TreeEvent>, kind: SyntaxKind, a: int, s: usize, e: usize)
    requires
        tiles(events, a, s as int),
        s <= e,
    ensures
        tiles(events.push(TreeEvent::Token(kind, s, e)), a, e as int),
{
    assert(events.push(TreeEvent::Token(kind, s, e)).drop_last() =~= events);
}

/// The spans of the warnings among `diagnostics`, in order.
pub open spec fn warning_spans(diagnostics: Seq<Diagnostic>) -> Seq<Option<SourceSpan>>
    decreases diagnostics.len(),
{
    if diagnostics.len() == 0 {
        Seq::empty()
    } else {
        warning_spans(diagnostics.drop_last()) + if diagnostics.last().severity == Severity::Warning {
            seq![diagnostics.last().span]
        } else {
            Seq::empty()
        }
    }
}

/// The spans of the unterminated-intralinea-block errors among
/// `diagnostics`, in order.
pub open spec fn block_error_spans(diagnostics: Seq<Diagnostic>) -> Seq<Option<SourceSpan>>
    decreases diagnostics.len(),
{
    if diagnostics.len() == 0 {
        Seq::empty()
    } else {
        block_error_spans(diagnostics.drop_last()) + if diagnostics.last().code
            == DiagnosticCode::UnterminatedIntralineaBlock {
            seq![diagnostics.last().span]
        } else {
            Seq::empty()
        }
    }
}

/// Reading intralinea text from `cursor`: where the first `{{` block that
/// is never closed opens, if any.
pub open spec fn unclosed_block(src: Seq<char>, cursor: int) -> Option<int>
    decreases src.len() - cursor,
{
    let len = src.len() as int;
    if cursor < 0 || cursor >= len {
        None
    } else {
        match find_spec(src, cursor, len, seq!['{', '{']) {
            None => None,
            Some(start) => match close_scan(src, start + 2, len, 0, None, false, false) {
                None => Some(start),
                Some(end) => if end + 2 <= cursor || end + 2 > len {
                    None
                } else {
                    unclosed_block(src, end + 2)
                },
            },
        }
    }
}

/// The unterminated-block error that an unclosed block opening at
/// `start` gives, if any: from the block to the end of the source.
pub open spec fn block_error(src: Seq<char>, start: Option<int>) -> Seq<Option<SourceSpan>> {
    match start {
        Some(st) => seq![
            Some(SourceSpan { start: utf8_prefix(src, st) as usize, end: utf8_prefix(src, src.len() as int) as usize }),
        ],
        None => Seq::empty(),
    }
}

/// The kind of the directive whose name starts at `name_start`: `@target`
/// and `@profile` have kinds of their own.
pub open spec fn directive_kind(src: Seq<char>, name_start: int, limit: int) -> SyntaxKind {
    let name_end = skip_spec(src, name_start, limit, CharClass::IdentContinue);
    if spells_spec(src, name_start, name_end, seq!['t', 'a', 'r', 'g', 'e', 't']) {
        SyntaxKind::TargetDirective
    } else if spells_spec(src, name_start, name_end, seq!['p', 'r', 'o', 'f', 'i', 'l', 'e']) {
        SyntaxKind::ProfileDirective
    } else {
        SyntaxKind::Directive
    }
}

/// Event `k` opens a node of kind `kind`.
pub open spec fn opens_at(events: Seq<TreeEvent>, k: int, kind: SyntaxKind) -> bool {
    0 <= k < events.len() && events[k] == TreeEvent::Start(kind)
}

/// The end of a capture's text from `i`: the first `}` or line break
/// before `limit`, else `limit`.
pub open spec fn capture_text_end(src: Seq<char>, i: int, limit: int) -> int
    decreases limit - i,
{
    if i >= limit || src[i] == '}' || src[i] == '\n' || src[i] == '\r' {
        i
    } else {
        capture_text_end(src, i + 1, limit)
    }
}

/// Where the capture that opens at `pos` ends: after its `}`, or at the
/// end of its text when it is never closed.
pub open spec fn capture_end(src: Seq<char>, pos: int, limit: int) -> int {
    let t = capture_text_end(src, pos + 1, limit);
    if t < limit && src[t] == '}' {
        t + 1
    } else {
        t
    }
}

/// The end of a one-line string's text from `i`: the first `"` or line
/// break before `limit` that no backslash escapes, else `limit`.
pub open spec fn string_text_end(src: Seq<char>, i: int, limit: int) -> int
    decreases limit - i,
{
    if i >= limit || src[i] == '"' || src[i] == '\n' || src[i] == '\r' {
        i
    } else if src[i] == '\\' && i + 1 < limit && src[i + 1] != '\n' && src[i + 1] != '\r' {
        string_text_end(src, i + 2, limit)
    } else {
        string_text_end(src, i + 1, limit)
    }
}

/// Where the string that opens at `pos` ends: a triple string after its
/// closing `"""` or at `limit`; a one-line string after its closing quote,
/// or at the end of its text when it is never closed.
pub open spec fn string_end(src: Seq<char>, pos: int, limit: int) -> int {
    if occurs_at(src, pos, limit, seq!['"', '"', '"']) {
        match find_spec(src, pos + 3, limit, seq!['"', '"', '"']) {
            Some(e) => e + 3,
            None => limit,
        }
    } else {
        let t = string_text_end(src, pos + 1, limit);
        if t < limit && src[t] == '"' {
            t + 1
        } else {
            t
        }
    }
}

/// The end of a snippet's body from `i`: the first `]` or line break
/// before `limit`, stepping over strings and captures whole.
pub open spec fn snippet_text_end(src: Seq<char>, i: int, limit: int) -> int
    decreases limit - i,
{
    if i >= limit || src[i] == ']' || src[i] == '\n' || src[i] == '\r' {
        i
    } else {
        let next = if src[i] == '"' {
            string_end(src, i, limit)
        } else if src[i] == '{' {
            capture_end(src, i, limit)
        } else {
            i + 1
        };
        if i < next <= limit {
            snippet_text_end(src, next, limit)
        } else {
            i
        }
    }
}

/// Where the snippet that opens at `pos` ends: after its `]` and a
/// quantifier sign that follows it; an unclosed snippet at the end of its
/// body, or after a quantifier sign there.
pub open spec fn snippet_end(src: Seq<char>, pos: int, limit: int) -> int {
    let after = snippet_body_close(src, pos, limit);
    if quantifier_at(src, after, limit) {
        after + 1
    } else {
        after
    }
}

/// Where a snippet that opens at `pos` stops before any quantifier: after
/// its `]`, or at the end of its body when unclosed.
pub open spec fn snippet_body_close(src: Seq<char>, pos: int, limit: int) -> int {
    let t = snippet_text_end(src, pos + 1, limit);
    if t < limit && src[t] == ']' {
        t + 1
    } else {
        t
    }
}

/// A quantifier sign `+`, `*` or `?` stands at `i`.
pub open spec fn quantifier_at(src: Seq<char>, i: int, limit: int) -> bool {
    i < limit && (src[i] == '+' || src[i] == '*' || src[i] == '?')
}

/// The end of a URI's text from `i`: the first `>` or whitespace before
/// `limit`, else `limit`.
pub open spec fn uri_text_end(src: Seq<char>, i: int, limit: int) -> int
    decreases limit - i,
{
    if i >= limit || src[i] == '>' || is_ws_spec(src[i]) {
        i
    } else {
        uri_text_end(src, i + 1, limit)
    }
}

/// The end of a backtick chunk's text from `i`: the first backtick or line
/// break before `limit`, else `limit`.
pub open spec fn backtick_text_end(src: Seq<char>, i: int, limit: int) -> int
    decreases limit - i,
{
    if i >= limit || src[i] == '`' || src[i] == '\n' || src[i] == '\r' {
        i
    } else {
        backtick_text_end(src, i + 1, limit)
    }
}

/// Where the URI that opens at `pos` ends: after its `>`, or at the end of
/// its text when it is never closed.
pub open spec fn uri_end(src: Seq<char>, pos: int, limit: int) -> int {
    let t = uri_text_end(src, pos + 1, limit);
    if t < limit && src[t] == '>' {
        t + 1
    } else {
        t
    }
}

/// Where the backtick chunk that opens at `pos` ends: after its closing
/// backtick, or at the end of its text when it is never closed.
pub open spec fn backtick_end(src: Seq<char>, pos: int, limit: int) -> int {
    let t = backtick_text_end(src, pos + 1, limit);
    if t < limit && src[t] == '`' {
        t + 1
    } else {
        t
    }
}

/// Where the number that starts at `pos` ends: an optional `-`, digits,
/// and a fraction when a digit follows the `.`.
pub open spec fn number_end(src: Seq<char>, pos: int, limit: int) -> int {
    let a = if pos < limit && src[pos] == '-' {
        pos + 1
    } else {
        pos
    };
    let b = skip_spec(src, a, limit, CharClass::Digit);
    if b < limit && src[b] == '.' && b + 1 < limit && is_digit_spec(src[b + 1]) {
        skip_spec(src, b + 1, limit, CharClass::Digit)
    } else {
        b
    }
}

proof fn lemma_uri_text_end_bounds(src: Seq<char>, i: int, limit: int)
    requires
        i <= limit,
    ensures
        i <= uri_text_end(src, i, limit) <= limit,
    decreases limit - i,
{
    if !(i >= limit || src[i] == '>' || is_ws_spec(src[i])) {
        lemma_uri_text_end_bounds(src, i + 1, limit);
    }
}

proof fn lemma_backtick_text_end_bounds(src: Seq<char>, i: int, limit: int)
    requires
        i <= limit,
    ensures
        i <= backtick_text_end(src, i, limit) <= limit,
    decreases limit - i,
{
    if !(i >= limit || src[i] == '`' || src[i] == '\n' || src[i] == '\r') {
        lemma_backtick_text_end_bounds(src, i + 1, limit);
    }
}

/// A string or a capture that opens at `i` ends after `i` and no later
/// than `limit`.
proof fn lemma_value_ends(src: Seq<char>, i: int, limit: int)
    requires
        0 <= i < limit,
    ensures
        i < string_end(src, i, limit) <= limit,
        i < capture_end(src, i, limit) <= limit,
{
    lemma_capture_text_end_bounds(src, i + 1, limit);
    lemma_string_text_end_bounds(src, i + 1, limit);
    lemma_find_bounds(src, i + 3, limit, seq!['"', '"', '"']);
}

proof fn lemma_capture_text_end_bounds(src: Seq<char>, i: int, limit: int)
    requires
        i <= limit,
    ensures
        i <= capture_text_end(src, i, limit) <= limit,
    decreases limit - i,
{
    if !(i >= limit || src[i] == '}' || src[i] == '\n' || src[i] == '\r') {
        lemma_capture_text_end_bounds(src, i + 1, limit);
    }
}

proof fn lemma_string_text_end_bounds(src: Seq<char>, i: int, limit: int)
    requires
        i <= limit,
    ensures
        i <= string_text_end(src, i, limit) <= limit,
    decreases limit - i,
{
    if i >= limit || src[i] == '"' || src[i] == '\n' || src[i] == '\r' {
    } else if src[i] == '\\' && i + 1 < limit && src[i + 1] != '\n' && src[i + 1] != '\r' {
        lemma_string_text_end_bounds(src, i + 2, limit);
    } else {
        lemma_string_text_end_bounds(src, i + 1, limit);
    }
}

/// A node opened before a balanced extension stays where it was, also
/// once one more event is appended.
proof fn lemma_kept_open(a: Seq<TreeEvent>, b: Seq<TreeEvent>, k: int, kind: SyntaxKind)
    requires
        extends_balanced(a, b),
        opens_at(a, k, kind),
    ensures
        opens_at(b, k, kind),
        forall|e: TreeEvent| #[trigger] opens_at(b.push(e), k, kind),
{
    lemma_extends_prefix(a, b);
    assert(b.take(a.len() as int)[k] == b[k]);
}

/// The characters `start..end` of `src` are exactly `word`.
pub open spec fn spells_spec(src: Seq<char>, start: int, end: int, word: Seq<char>) -> bool {
    end - start == word.len() && occurs_at(src, start, end, word)
}

/// Whether a statement value starts at `pos`: not at a decoration or a
/// local subject marker, but at a snippet, capture, string, URI, backtick
/// chunk, `~[`, quantifier sign, number or identifier, or at `=` where
/// that is allowed.
pub open spec fn starts_value_spec(src: Seq<char>, pos: int, limit: int, allow_equals: bool) -> bool {
    &&& !occurs_at(src, pos, limit, seq![':', ':'])
    &&& marker_spec(src, pos, limit) is Absent
    &&& pos < limit
    &&& {
        let ch = src[pos];
        ||| ch == '[' || ch == '{' || ch == '"' || ch == '<' || ch == '`'
        ||| (ch == '~' && occurs_at(src, pos, limit, seq!['~', '[']))
        ||| ch == '+' || ch == '*' || ch == '?'
        ||| is_digit_spec(ch) || is_identifier_start_spec(ch)
        ||| (ch == '=' && allow_equals)
    }
}

/// What `start..end` of `src` spells as a word: a boolean literal or an
/// identifier.
pub open spec fn word_kind_spec(src: Seq<char>, start: int, end: int) -> SyntaxKind {
    if spells_spec(src, start, end, seq!['t', 'r', 'u', 'e']) || spells_spec(
        src,
        start,
        end,
        seq!['f', 'a', 'l', 's', 'e'],
    ) {
        SyntaxKind::Boolean
    } else {
        SyntaxKind::Identifier
    }
}

/// The word at `start` is an identifier that begins in lower case or
/// with `_`: only a predicate may be such a word.
pub open spec fn lowercase_identifier(src: Seq<char>, start: int, limit: int) -> bool {
    let end = word_end_spec(src, start, limit);
    &&& word_kind_spec(src, start, end) == SyntaxKind::Identifier
    &&& end > start
    &&& (is_lower_spec(src[start]) || src[start] == '_')
}

/// Whether a statement value at `pos` gives a value and whether an error,
/// by its first character; `recovery` where a predicate is being
/// recovered (captures and backtick chunks are allowed there).
/// The length of the local subject marker at `pos`, valid or not; zero
/// where there is none.
pub open spec fn marker_len(src: Seq<char>, pos: int, limit: int) -> int {
    match marker_spec(src, pos, limit) {
        LocalSubjectMarkerMatch::Valid(l) => l as int,
        LocalSubjectMarkerMatch::Invalid(l) => l as int,
        LocalSubjectMarkerMatch::Absent => 0,
    }
}

/// Where any value read at `pos` ends, local subject markers included;
/// nothing is read at `.`, `,`, `;` or at `limit`, and any other
/// character stands for one character.
pub open spec fn any_value_end(src: Seq<char>, pos: int, limit: int) -> int {
    if !(marker_spec(src, pos, limit) is Absent) {
        pos + marker_len(src, pos, limit)
    } else if pos >= limit {
        pos
    } else {
        let ch = src[pos];
        if ch == '[' {
            snippet_end(src, pos, limit)
        } else if ch == '{' {
            capture_end(src, pos, limit)
        } else if ch == '"' {
            string_end(src, pos, limit)
        } else if ch == '<' {
            uri_end(src, pos, limit)
        } else if ch == '`' {
            backtick_end(src, pos, limit)
        } else if ch == '~' && occurs_at(src, pos, limit, seq!['~', '[']) {
            snippet_end(src, pos + 1, limit)
        } else if ch == '+' || ch == '*' || ch == '?' {
            pos + 1
        } else if is_digit_spec(ch) {
            number_end(src, pos, limit)
        } else if is_identifier_start_spec(ch) {
            word_end_spec(src, pos, limit)
        } else if ch == '.' || ch == ',' || ch == ';' {
            pos
        } else {
            pos + 1
        }
    }
}

/// Where the decoration `::` at `pos` ends: after the string that follows
/// it, or after whatever value stands there instead.
pub open spec fn decoration_end(src: Seq<char>, pos: int, limit: int) -> int {
    let a = trivia_end(src, pos + 2, limit, false);
    if a < limit && src[a] == '"' {
        string_end(src, a, limit)
    } else {
        any_value_end(src, a, limit)
    }
}

/// Where the extra values that follow an object without a comma end,
/// from `i`: each value with its trivia and a decoration after it.
pub open spec fn extras_end(src: Seq<char>, i: int, limit: int) -> int
    decreases limit - i,
{
    if starts_value_spec(src, i, limit, false) {
        let b = decorated_end(src, trivia_end(src, any_value_end(src, i, limit), limit, false), limit);
        if i < b <= limit {
            extras_end(src, b, limit)
        } else {
            i
        }
    } else {
        i
    }
}

/// From `a`: past a decoration and its trivia where `::` stands there.
pub open spec fn decorated_end(src: Seq<char>, a: int, limit: int) -> int {
    if occurs_at(src, a, limit, seq![':', ':']) {
        trivia_end(src, decoration_end(src, a, limit), limit, false)
    } else {
        a
    }
}

/// Where one object of a list ends, from `pos`: its value and trivia, a
/// decoration, and the extra values that follow it without a comma.
pub open spec fn object_item_end(src: Seq<char>, pos: int, limit: int) -> int {
    let a = if object_stop(src, pos, limit) {
        pos
    } else {
        trivia_end(src, value_end(src, pos, limit, false), limit, false)
    };
    extras_end(src, decorated_end(src, a, limit), limit)
}

/// Where the object list from `pos` ends: its objects, separated by commas
/// with their trivia.
pub open spec fn object_list_end(src: Seq<char>, pos: int, limit: int) -> int
    decreases limit - pos,
{
    let e = object_item_end(src, pos, limit);
    if e < limit && src[e] == ',' {
        let n = trivia_end(src, e + 1, limit, false);
        if pos < n <= limit {
            object_list_end(src, n, limit)
        } else {
            pos
        }
    } else {
        e
    }
}

/// Where a `;` continuation at `pos` ends: the `;`, its trivia (line
/// breaks included) and the predicate chain after it; nothing is read
/// where no `;` stands.
pub open spec fn continuation_end(src: Seq<char>, pos: int, limit: int) -> int {
    if pos < limit && src[pos] == ';' {
        predicate_chain_end(src, trivia_end(src, pos + 1, limit, true), limit)
    } else {
        pos
    }
}

/// Where the body of a statement that starts at `pos` ends, before any
/// trailing marker and its `.`: a leading decoration (outside commentaria)
/// with its continuation; an ambient predicate chain (outside commentaria,
/// at a backtick, a lowercase letter or `=`); or a subject followed by a
/// decoration with its continuation, or by a predicate chain.
pub open spec fn statement_body_end(src: Seq<char>, pos: int, limit: int, commentaria: bool) -> int {
    if !commentaria && occurs_at(src, pos, limit, seq![':', ':']) {
        continuation_end(src, trivia_end(src, decoration_end(src, pos, limit), limit, true), limit)
    } else if !commentaria && pos < limit && (src[pos] == '`' || is_lower_spec(src[pos]) || src[pos] == '=') {
        predicate_chain_end(src, pos, limit)
    } else {
        let a = trivia_end(src, subject_end(src, pos, limit), limit, false);
        if occurs_at(src, a, limit, seq![':', ':']) {
            continuation_end(src, trivia_end(src, decoration_end(src, a, limit), limit, true), limit)
        } else {
            predicate_chain_end(src, a, limit)
        }
    }
}

/// Where the statement that starts at `pos` ends: its body, a local
/// subject marker with its trivia, and the terminating `.` where one
/// stands.
pub open spec fn statement_end(src: Seq<char>, pos: int, limit: int, commentaria: bool) -> int {
    let b = statement_body_end(src, pos, limit, commentaria);
    let c = if marker_spec(src, b, limit) is Absent {
        b
    } else {
        trivia_end(src, b + marker_len(src, b, limit), limit, false)
    };
    if c < limit && src[c] == '.' {
        c + 1
    } else {
        c
    }
}

/// Where the subject read at `pos` ends: a local subject marker with the
/// trivia after it, or a statement value.
pub open spec fn subject_end(src: Seq<char>, pos: int, limit: int) -> int {
    if marker_spec(src, pos, limit) is Absent {
        value_end(src, pos, limit, false)
    } else {
        trivia_end(src, pos + marker_len(src, pos, limit), limit, false)
    }
}

/// Where one predicate with its objects ends, from `pos`: the predicate
/// and its trivia, then the object list where one can start.
pub open spec fn chain_step_end(src: Seq<char>, pos: int, limit: int) -> int {
    let a = trivia_end(src, predicate_end(src, pos, limit), limit, false);
    if a < limit && src[a] != '\n' && src[a] != '.' && src[a] != ';' && marker_spec(src, a, limit) is Absent {
        object_list_end(src, a, limit)
    } else {
        a
    }
}

/// Where the chain of predicates from `pos` ends: predicates with their
/// objects, joined by `;` and the trivia after it, up to the end of the
/// statement.
pub open spec fn predicate_chain_end(src: Seq<char>, pos: int, limit: int) -> int
    decreases limit - pos,
{
    if pos >= limit || src[pos] == '\n' || src[pos] == '.' {
        pos
    } else {
        let e = chain_step_end(src, pos, limit);
        if e < limit && src[e] == ';' {
            let n = trivia_end(src, e + 1, limit, true);
            if n >= limit || src[n] == '.' || src[n] == '\n' {
                n
            } else if pos < n <= limit {
                predicate_chain_end(src, n, limit)
            } else {
                pos
            }
        } else {
            e
        }
    }
}

/// Where the predicate read at `pos` ends: a backtick phrase, `=`, a
/// lowercase word, or else whatever value stands there.
pub open spec fn predicate_end(src: Seq<char>, pos: int, limit: int) -> int {
    if pos < limit && src[pos] == '`' {
        backtick_end(src, pos, limit)
    } else if pos < limit && src[pos] == '=' {
        pos + 1
    } else if pos < limit && is_lower_spec(src[pos]) {
        word_end_spec(src, pos, limit)
    } else {
        value_end(src, pos, limit, false)
    }
}

/// The flags that reading a predicate at `pos` gives: whether a predicate was read, and
/// whether it was in error. A backtick phrase, `=` and a lowercase word other than a
/// boolean are predicates; anything else is an error.
pub open spec fn predicate_outcome(src: Seq<char>, pos: int, limit: int) -> (bool, bool) {
    if pos < limit && (src[pos] == '`' || src[pos] == '=') {
        (true, false)
    } else if pos < limit && is_lower_spec(src[pos]) {
        if word_kind_spec(src, pos, word_end_spec(src, pos, limit)) == SyntaxKind::Boolean {
            (false, true)
        } else {
            (true, false)
        }
    } else {
        (false, true)
    }
}

pub open spec fn value_outcome(src: Seq<char>, pos: int, limit: int, recovery: bool, allow_equals: bool) -> (
    bool,
    bool,
) {
    if pos >= limit {
        (false, false)
    } else {
        let ch = src[pos];
        if ch == '[' || ch == '"' || ch == '<' {
            (true, false)
        } else if ch == '{' || ch == '`' {
            if recovery {
                (true, false)
            } else {
                (false, true)
            }
        } else if ch == '~' && occurs_at(src, pos, limit, seq!['~', '[']) {
            (true, false)
        } else if ch == '+' || ch == '*' || ch == '?' {
            (false, true)
        } else if is_digit_spec(ch) || (ch == '-' && pos + 1 < limit && is_digit_spec(src[pos + 1])) {
            (true, false)
        } else if is_identifier_start_spec(ch) {
            if recovery {
                (true, false)
            } else {
                (true, lowercase_identifier(src, pos, limit))
            }
        } else if ch == '=' && allow_equals {
            (true, false)
        } else if is_stop(ch) {
            (false, false)
        } else {
            (false, true)
        }
    }
}

/// The node a statement value at `pos` opens, with its offset among the
/// events it appends (a `~` comes first as a token of its own); `None`
/// where the value is a bare token or nothing.
/// Where the statement value that starts at `pos` ends. Captures and
/// backtick chunks have the same extent where they are refused; a
/// quantifier sign alone and any other character stand for one character;
/// nothing is read at `.`, `,`, `;` or at `limit`.
pub open spec fn value_end(src: Seq<char>, pos: int, limit: int, allow_equals: bool) -> int {
    if pos >= limit {
        pos
    } else {
        let ch = src[pos];
        if ch == '[' {
            snippet_end(src, pos, limit)
        } else if ch == '{' {
            capture_end(src, pos, limit)
        } else if ch == '"' {
            string_end(src, pos, limit)
        } else if ch == '<' {
            uri_end(src, pos, limit)
        } else if ch == '`' {
            backtick_end(src, pos, limit)
        } else if ch == '~' && occurs_at(src, pos, limit, seq!['~', '[']) {
            snippet_end(src, pos + 1, limit)
        } else if ch == '+' || ch == '*' || ch == '?' {
            pos + 1
        } else if is_digit_spec(ch) || (ch == '-' && pos + 1 < limit && is_digit_spec(src[pos + 1])) {
            number_end(src, pos, limit)
        } else if is_identifier_start_spec(ch) {
            word_end_spec(src, pos, limit)
        } else if ch == '=' && allow_equals {
            pos + 1
        } else if ch == '.' || ch == ',' || ch == ';' {
            pos
        } else {
            pos + 1
        }
    }
}

pub open spec fn value_node(
    src: Seq<char>,
    pos: int,
    limit: int,
    recovery: bool,
    allow_equals: bool,
    intralinea: bool,
) -> Option<(int, SyntaxKind)> {
    if pos >= limit {
        None
    } else {
        let ch = src[pos];
        let snippet_kind = |at: int|
            if contains_range_spec(src, at, limit, intralinea) {
                SyntaxKind::RangeSnippet
            } else {
                SyntaxKind::Snippet
            };
        if ch == '[' {
            Some((0, snippet_kind(pos)))
        } else if ch == '{' {
            Some((0, if recovery { SyntaxKind::Capture } else { SyntaxKind::Error }))
        } else if ch == '"' {
            Some((0, if occurs_at(src, pos, limit, seq!['"', '"', '"']) { SyntaxKind::TripleString } else { SyntaxKind::String }))
        } else if ch == '<' {
            Some((0, SyntaxKind::Uri))
        } else if ch == '`' {
            if recovery { None } else { Some((0, SyntaxKind::Error)) }
        } else if ch == '~' && occurs_at(src, pos, limit, seq!['~', '[']) {
            Some((1, snippet_kind(pos + 1)))
        } else if ch == '+' || ch == '*' || ch == '?' {
            Some((0, SyntaxKind::Error))
        } else if is_digit_spec(ch) || (ch == '-' && pos + 1 < limit && is_digit_spec(src[pos + 1])) {
            Some((0, SyntaxKind::Number))
        } else if is_identifier_start_spec(ch) {
            let kind = word_kind_spec(src, pos, word_end_spec(src, pos, limit));
            if recovery {
                Some((0, kind))
            } else if lowercase_identifier(src, pos, limit) {
                Some((0, SyntaxKind::Error))
            } else {
                Some((0, kind))
            }
        } else if ch == '=' && allow_equals {
            None
        } else if is_stop(ch) {
            None
        } else {
            Some((0, SyntaxKind::Error))
        }
    }
}

/// Where an object cannot start: at the end of the statement or line, a
/// separator or terminator, a decoration or a local subject marker.
pub open spec fn object_stop(src: Seq<char>, pos: int, limit: int) -> bool {
    ||| pos >= limit
    ||| src[pos] == '\n' || src[pos] == ',' || src[pos] == ';' || src[pos] == '.'
    ||| occurs_at(src, pos, limit, seq![':', ':'])
    ||| !(marker_spec(src, pos, limit) is Absent)
}

/// Where a block comment that opens at `pos` ends: after its `*/`, or
/// at `limit` when it is never closed.
pub open spec fn block_comment_end(src: Seq<char>, pos: int, limit: int) -> int {
    match find_spec(src, pos + 2, limit, seq!['*', '/']) {
        Some(end) => end + 2,
        None => limit,
    }
}

/// Where statement trivia read from `pos` ends: comments and whitespace
/// are skipped; where `allow_newline` is false, a line break or the end of
/// a line comment stops the run.
pub open spec fn trivia_end(src: Seq<char>, pos: int, limit: int, allow_newline: bool) -> int
    decreases limit - pos,
{
    if pos < 0 || pos >= limit || limit > src.len() {
        pos
    } else if occurs_at(src, pos, limit, seq!['/', '/']) && !occurs_at(src, pos, limit, seq!['/', '/', '/']) {
        let end = skip_spec(src, pos, limit, CharClass::NotNewline);
        if !allow_newline {
            end
        } else {
            proof {
                lemma_skip_bounds(src, pos, limit, CharClass::NotNewline);
                assert(src.subrange(pos, pos + 2)[0] == src[pos]);
                if end == pos {
                    assert(!in_class(src[pos], CharClass::NotNewline));
                }
            }
            trivia_end(src, end, limit, allow_newline)
        }
    } else if occurs_at(src, pos, limit, seq!['/', '*']) {
        proof {
            lemma_find_bounds(src, pos + 2, limit, seq!['*', '/']);
        }
        trivia_end(src, block_comment_end(src, pos, limit), limit, allow_newline)
    } else if is_ws_spec(src[pos]) {
        if allow_newline {
            proof {
                lemma_skip_bounds(src, pos + 1, limit, CharClass::Ws);
            }
            trivia_end(src, skip_spec(src, pos, limit, CharClass::Ws), limit, allow_newline)
        } else if src[pos] == '\n' {
            pos
        } else {
            proof {
                lemma_skip_bounds(src, pos + 1, limit, CharClass::InlineWs);
            }
            trivia_end(src, skip_spec(src, pos, limit, CharClass::InlineWs), limit, allow_newline)
        }
    } else {
        pos
    }
}

/// The statement-value stop characters.
pub open spec fn is_stop(c: char) -> bool {
    c == '.' || c == ',' || c == ';'
}

#[derive(Debug, Clone, Copy, PartialEq, Eq, Structural)]
enum RegionContext {
    Commentaria,
    Marginalia,
    Intralinea,
}

#[derive(Debug, Clone, Copy)]
struct ValueParseState {
    has_value: bool,
    has_error: bool,
}

#[derive(Debug, Clone, Copy, PartialEq, Eq, Structural)]
enum StatementValueContext {
    SubjectOrObject,
    PredicateRecovery,
}

/// Parses one SnipX region `base..limit` of `source`, appending events
/// and diagnostics to the vectors it was given.
struct RegionParser<'a> {
    source: &'a [char],
    offsets: &'a [usize],
    base: usize,
    limit: usize,
    context: RegionContext,
    embedded: bool,
    pos: usize,
    statement_seen: bool,
    unterminated_statement: Option<(usize, usize)>,
    events: Vec<TreeEvent>,
    diagnostics: Vec<Diagnostic>,
    origin: Ghost<int>,
}

impl<'a> RegionParser<'a> {
    spec fn frame(&self) -> bool {
        &&& self.base <= self.pos <= self.limit <= self.source@.len()
        &&& offsets_of(self.source@, self.offsets@)
        &&& diagnostics_located(self.diagnostics@, utf8_len(self.source@) as int)
        &&& self.unterminated_statement matches Some((s, e)) ==> self.base <= s <= e
            <= self.limit
    }

    spec fn inv(&self) -> bool {
        &&& self.frame()
        &&& tiles(self.events@, self.origin@, self.pos as int)
    }

    spec fn same_frame(&self, other: &Self) -> bool {
        &&& warning_spans(self.diagnostics@) == warning_spans(other.diagnostics@)
        &&& block_error_spans(self.diagnostics@) == block_error_spans(other.diagnostics@)
        &&& self.source == other.source
        &&& self.offsets == other.offsets
        &&& self.base == other.base
        &&& self.limit == other.limit
        &&& self.context == other.context
        &&& self.embedded == other.embedded
        &&& self.origin == other.origin
    }

    /// The parser consumed input, kept its invariant and its frame.
    spec fn advanced(&self, old: &Self) -> bool {
        &&& self.inv()
        &&& self.same_frame(old)
        &&& old.pos <= self.pos
        &&& extends_balanced(old.events@, self.events@)
    }

    /// As `advanced`, with the events measured from `ev` onwards.
    spec fn advanced_from(&self, old: &Self, ev: Seq<TreeEvent>) -> bool {
        &&& self.inv()
        &&& self.same_frame(old)
        &&& old.pos <= self.pos
        &&& extends_balanced(ev, self.events@)
    }

    spec fn peek_spec(&self) -> Option<char> {
        if self.pos < self.limit {
            Some(self.source@[self.pos as int])
        } else {
            None
        }
    }

    spec fn at(&self) -> char {
        self.source@[self.pos as int]
    }

    fn peek_char(&self) -> (r: Option<char>)
        requires
            self.frame(),
        ensures
            r == self.peek_spec(),
    {
        if self.pos < self.limit {
            Some(self.source[self.pos])
        } else {
            None
        }
    }

    fn peek_is(&self, c: char) -> (r: bool)
        requires
            self.frame(),
        ensures
            r == (self.pos < self.limit && self.at() == c),
    {
        self.pos < self.limit && self.source[self.pos] == c
    }

    fn starts_with(&self, pattern: &[char]) -> (r: bool)
        requires
            self.frame(),
        ensures
            r == occurs_at(self.source@, self.pos as int, self.limit as int, pattern@),
            r && pattern@.len() > 0 ==> self.pos < self.limit && self.at() == pattern@[0],
    {
        let r = starts_with_at(self.source, self.pos, self.limit, pattern);
        proof {
            if r && pattern@.len() > 0 {
                assert(self.source@.subrange(self.pos as int, self.pos + pattern@.len())[0]
                    == pattern@[0]);
            }
        }
        r
    }

    fn advance_char(&mut self)
        requires
            old(self).frame(),
        ensures
            final(self).frame(),
            final(self).same_frame(old(self)),
            final(self).events == old(self).events,
            final(self).pos == if old(self).pos < old(self).limit {
                old(self).pos + 1
            } else {
                old(self).pos as int
            },
    {
        if self.pos < self.limit {
            self.pos = self.pos + 1;
        }
    }

    /// Advances over the run of `class` characters.
    fn consume_class(&mut self, class: CharClass)
        requires
            old(self).frame(),
        ensures
            final(self).frame(),
            final(self).same_frame(old(self)),
            final(self).events == old(self).events,
            final(self).pos == skip_spec(
                old(self).source@,
                old(self).pos as int,
                old(self).limit as int,
                class,
            ),
    {
        self.pos = skip(self.source, self.pos, self.limit, class);
    }

    fn start_node(&mut self, kind: SyntaxKind)
        requires
            old(self).frame(),
        ensures
            final(self).frame(),
            final(self).same_frame(old(self)),
            final(self).pos == old(self).pos,
            final(self).events@.len() > old(self).events@.len(),
            final(self).events@ == old(self).events@.push(TreeEvent::Start(kind)),
            final(self).diagnostics == old(self).diagnostics,
            forall|o: Seq<TreeEvent>, d: int|
                #[trigger] grown(o, old(self).events@, d) ==> grown(o, final(self).events@, d + 1),
            forall|b: int|
                tiles(old(self).events@, old(self).origin@, b) ==> #[trigger] tiles(
                    final(self).events@,
                    final(self).origin@,
                    b,
                ),
    {
        proof {
            assert forall|b: int| tiles(self.events@, self.origin@, b) implies tiles(
                self.events@.push(TreeEvent::Start(kind)),
                self.origin@,
                b,
            ) by {
                lemma_tiles_push_other(self.events@, TreeEvent::Start(kind), self.origin@, b);
            }
        }
        proof {
            assert forall|o: Seq<TreeEvent>, d: int| #[trigger] grown(o, self.events@, d) implies grown(
                o,
                self.events@.push(TreeEvent::Start(kind)),
                d + 1,
            ) by {
                lemma_grown_push(o, self.events@, d, TreeEvent::Start(kind));
            }
        }
        self.events.push(TreeEvent::Start(kind));
    }

    fn finish_node(&mut self)
        requires
            old(self).frame(),
        ensures
            final(self).frame(),
            final(self).same_frame(old(self)),
            final(self).pos == old(self).pos,
            final(self).events@.len() > old(self).events@.len(),
            final(self).events@ == old(self).events@.push(TreeEvent::Finish),
            final(self).diagnostics == old(self).diagnostics,
            forall|o: Seq<TreeEvent>, d: int|
                #[trigger] grown(o, old(self).events@, d) && d >= 1 ==> grown(o, final(self).events@, d - 1),
            forall|b: int|
                tiles(old(self).events@, old(self).origin@, b) ==> #[trigger] tiles(
                    final(self).events@,
                    final(self).origin@,
                    b,
                ),
    {
        proof {
            assert forall|b: int| tiles(self.events@, self.origin@, b) implies tiles(
                self.events@.push(TreeEvent::Finish),
                self.origin@,
                b,
            ) by {
                lemma_tiles_push_other(self.events@, TreeEvent::Finish, self.origin@, b);
            }
        }
        proof {
            assert forall|o: Seq<TreeEvent>, d: int| #[trigger] grown(o, self.events@, d) && d >= 1 implies grown(
                o,
                self.events@.push(TreeEvent::Finish),
                d - 1,
            ) by {
                lemma_grown_push(o, self.events@, d, TreeEvent::Finish);
            }
        }
        self.events.push(TreeEvent::Finish);
    }

    /// An empty `Error` node.
    fn push_empty_error(&mut self)
        requires
            old(self).frame(),
        ensures
            final(self).frame(),
            final(self).same_frame(old(self)),
            final(self).pos == old(self).pos,
            final(self).events@.len() > old(self).events@.len(),
            extends_balanced(old(self).events@, final(self).events@),
            forall|b: int|
                tiles(old(self).events@, old(self).origin@, b) ==> #[trigger] tiles(
                    final(self).events@,
                    final(self).origin@,
                    b,
                ),
    {
        self.start_node(SyntaxKind::Error);
        self.finish_node();
    }

    /// Covers `start..end` with a token when the range is not empty.
    fn token_from(&mut self, kind: SyntaxKind, start: usize, end: usize)
        requires
            old(self).frame(),
            tiles(old(self).events@, old(self).origin@, start as int),
            start <= end <= old(self).limit,
        ensures
            final(self).frame(),
            final(self).same_frame(old(self)),
            final(self).pos == old(self).pos,
            extends_balanced(old(self).events@, final(self).events@),
            tiles(final(self).events@, final(self).origin@, end as int),
            final(self).events@ == if end > start {
                old(self).events@.push(TreeEvent::Token(kind, start, end))
            } else {
                old(self).events@
            },
            final(self).diagnostics == old(self).diagnostics,
    {
        if end > start {
            proof {
                lemma_tiles_push_token(self.events@, kind, self.origin@, start, end);
                assert forall|o: Seq<TreeEvent>, d: int| #[trigger] grown(o, self.events@, d) implies grown(
                    o,
                    self.events@.push(TreeEvent::Token(kind, start, end)),
                    d,
                ) by {
                    lemma_grown_push(o, self.events@, d, TreeEvent::Token(kind, start, end));
                }
            }
            self.events.push(TreeEvent::Token(kind, start, end));
        }
    }

    /// Covers the next `n` characters with one token and moves past them.
    fn emit(&mut self, kind: SyntaxKind, n: usize)
        requires
            old(self).inv(),
            old(self).pos + n <= old(self).limit,
        ensures
            final(self).inv(),
            final(self).same_frame(old(self)),
            final(self).pos == old(self).pos + n,
            extends_balanced(old(self).events@, final(self).events@),
            final(self).diagnostics == old(self).diagnostics,
            n > 0 ==> final(self).events@ == old(self).events@.push(
                TreeEvent::Token(kind, old(self).pos, (old(self).pos + n) as usize),
            ),
    {
        let start = self.pos;
        self.token_from(kind, start, start + n);
        self.pos = start + n;
    }

    fn push_diagnostic(&mut self, code: DiagnosticCode, message: &str, start: usize, end: usize)
        requires
            old(self).frame(),
            old(self).base <= start <= end <= old(self).limit,
            is_syntax_code(code),
            code != DiagnosticCode::UnterminatedIntralineaBlock,
        ensures
            final(self).frame(),
            final(self).same_frame(old(self)),
            final(self).pos == old(self).pos,
            final(self).events == old(self).events,
            final(self).unterminated_statement == old(self).unterminated_statement,
            final(self).statement_seen == old(self).statement_seen,
            final(self).diagnostics@.len() == old(self).diagnostics@.len() + 1,
            final(self).diagnostics@.drop_last() == old(self).diagnostics@,
            final(self).diagnostics@.last().code == code,
            final(self).diagnostics@.last().severity == Severity::Error,
            final(self).diagnostics@.last().message@ == message@,
            final(self).diagnostics@.last().span == Some(
                SourceSpan {
                    start: utf8_prefix(old(self).source@, start as int) as usize,
                    end: utf8_prefix(old(self).source@, end as int) as usize,
                },
            ),
    {
        let d = located_diagnostic(
            code,
            Severity::Error,
            message,
            self.source,
            self.offsets,
            start,
            end,
        );
        proof {
            lemma_push_located(self.diagnostics@, d, utf8_len(self.source@) as int);
        }
        self.diagnostics.push(d);
        assert(self.diagnostics@.drop_last() =~= old(self).diagnostics@);
        assert(warning_spans(self.diagnostics@) =~= warning_spans(old(self).diagnostics@));
        assert(block_error_spans(self.diagnostics@) =~= block_error_spans(old(self).diagnostics@));
    }

    /// The characters `start..end` spell `word`.
    fn spells(&self, start: usize, end: usize, word: &[char]) -> (r: bool)
        requires
            self.frame(),
            start <= end <= self.limit,
        ensures
            r == spells_spec(self.source@, start as int, end as int, word@),
    {
        end - start == word.len() && starts_with_at(self.source, start, end, word)
    }

    /// From `old` to `self`, a pending unterminated statement (if any) was
    /// reported as a missing terminator, and nothing else changed but the
    /// pending mark.
    spec fn reported_unterminated(&self, old: &Self) -> bool {
        &&& self.events == old.events
        &&& self.unterminated_statement is None
        &&& match old.unterminated_statement {
            None => self.diagnostics@ == old.diagnostics@,
            Some((s, e)) => {
                &&& self.diagnostics@.len() == old.diagnostics@.len() + 1
                &&& self.diagnostics@.drop_last() == old.diagnostics@
                &&& self.diagnostics@.last().code == DiagnosticCode::ParseError
                &&& self.diagnostics@.last().message@ == "Expected '.' statement terminator"@
                &&& self.diagnostics@.last().span == Some(
                    SourceSpan {
                        start: utf8_prefix(old.source@, s as int) as usize,
                        end: utf8_prefix(old.source@, e as int) as usize,
                    },
                )
            },
        }
    }

    fn report_unterminated_statement(&mut self)
        requires
            old(self).inv(),
        ensures
            final(self).inv(),
            final(self).same_frame(old(self)),
            final(self).pos == old(self).pos,
            extends_balanced(old(self).events@, final(self).events@),
            final(self).statement_seen == old(self).statement_seen,
            final(self).reported_unterminated(old(self)),
    {
        match self.unterminated_statement {
            Some((start, end)) => {
                self.unterminated_statement = None;
                self.push_diagnostic(
                    DiagnosticCode::ParseError,
                    "Expected '.' statement terminator",
                    start,
                    end,
                );
            },
            None => {},
        }
    }

    fn begin_statement(&mut self)
        requires
            old(self).inv(),
        ensures
            final(self).inv(),
            final(self).same_frame(old(self)),
            final(self).pos == old(self).pos,
            extends_balanced(old(self).events@, final(self).events@),
            final(self).statement_seen,
            final(self).reported_unterminated(old(self)),
    {
        self.report_unterminated_statement();
        self.statement_seen = true;
    }

    fn parse_whitespace(&mut self)
        requires
            old(self).inv(),
        ensures
            final(self).advanced(old(self)),
            old(self).pos < old(self).limit && is_ws_spec(old(self).at()) ==> final(self).pos
                > old(self).pos,
            final(self).pos == skip_spec(old(self).source@, old(self).pos as int, old(self).limit as int, CharClass::Ws),
    {
        let start = self.pos;
        proof {
            lemma_skip_bounds(self.source@, start as int, self.limit as int, CharClass::Ws);
        }
        self.consume_class(CharClass::Ws);
        let end = self.pos;
        self.token_from(SyntaxKind::Whitespace, start, end);
    }

    fn parse_line_comment(&mut self)
        requires
            old(self).inv(),
        ensures
            final(self).advanced(old(self)),
            old(self).pos < old(self).limit && old(self).at() != '\n' ==> final(self).pos > old(
                self,
            ).pos,
            final(self).pos == skip_spec(old(self).source@, old(self).pos as int, old(self).limit as int, CharClass::NotNewline),
    {
        let start = self.pos;
        let end = find_line_end(self.source, self.pos, self.limit);
        proof {
            lemma_skip_bounds(
                self.source@,
                start as int,
                self.limit as int,
                CharClass::NotNewline,
            );
        }
        self.start_node(SyntaxKind::LineComment);
        self.token_from(SyntaxKind::Text, start, end);
        self.finish_node();
        self.pos = end;
    }

    fn parse_block_comment(&mut self)
        requires
            old(self).inv(),
            old(self).pos + 2 <= old(self).limit,
        ensures
            final(self).advanced(old(self)),
            final(self).pos > old(self).pos,
            final(self).pos == block_comment_end(old(self).source@, old(self).pos as int, old(self).limit as int),
    {
        let start = self.pos;
        self.start_node(SyntaxKind::BlockComment);
        self.pos = self.pos + 2;
        match find(self.source, self.pos, self.limit, &['*', '/']) {
            Some(end) => {
                self.pos = end + 2;
                let here = self.pos;
                self.token_from(SyntaxKind::Text, start, here);
            },
            None => {
                self.pos = self.limit;
                let here = self.pos;
                self.token_from(SyntaxKind::Text, start, here);
                self.push_diagnostic(
                    DiagnosticCode::UnterminatedBlockComment,
                    "Unterminated block comment",
                    start,
                    here,
                );
            },
        }
        self.finish_node();
    }

    fn consume_inline_whitespace(&mut self)
        requires
            old(self).inv(),
        ensures
            final(self).advanced(old(self)),
            old(self).pos < old(self).limit && is_ws_spec(old(self).at()) && old(self).at()
                != '\n' ==> final(self).pos > old(self).pos,
            final(self).pos == skip_spec(old(self).source@, old(self).pos as int, old(self).limit as int, CharClass::InlineWs),
    {
        while self.pos < self.limit
            invariant
                self.advanced(old(self)),
                skip_spec(self.source@, self.pos as int, self.limit as int, CharClass::InlineWs) == skip_spec(
                    old(self).source@,
                    old(self).pos as int,
                    old(self).limit as int,
                    CharClass::InlineWs,
                ),
                old(self).pos < old(self).limit && is_ws_spec(old(self).at()) && old(self).at()
                    != '\n' && self.pos == old(self).pos ==> self.pos < self.limit
                    && is_ws_spec(self.at()) && self.at() != '\n',
            ensures
                self.advanced(old(self)),
                old(self).pos < old(self).limit && is_ws_spec(old(self).at()) && old(self).at()
                    != '\n' ==> self.pos > old(self).pos,
                self.pos == skip_spec(old(self).source@, old(self).pos as int, old(self).limit as int, CharClass::InlineWs),
            decreases self.limit - self.pos,
        {
            let ch = self.source[self.pos];
            if ch == '\n' {
                break;
            }
            if is_ws(ch) {
                let start = self.pos;
                proof {
                    lemma_skip_bounds(
                        self.source@,
                        start as int,
                        self.limit as int,
                        CharClass::InlineWs,
                    );
                    assert(in_class(self.source@[start as int], CharClass::InlineWs));
                }
                self.consume_class(CharClass::InlineWs);
                let end = self.pos;
                self.token_from(SyntaxKind::Whitespace, start, end);
            } else {
                break;
            }
        }
    }

    fn consume_statement_trivia(&mut self, allow_newline: bool)
        requires
            old(self).inv(),
        ensures
            final(self).advanced(old(self)),
            final(self).pos == trivia_end(old(self).source@, old(self).pos as int, old(self).limit as int, allow_newline),
    {
        loop
            invariant_except_break
                trivia_end(self.source@, self.pos as int, self.limit as int, allow_newline) == trivia_end(
                    old(self).source@,
                    old(self).pos as int,
                    old(self).limit as int,
                    allow_newline,
                ),
            invariant
                self.advanced(old(self)),
            ensures
                self.advanced(old(self)),
                self.pos == trivia_end(old(self).source@, old(self).pos as int, old(self).limit as int, allow_newline),
            decreases self.limit - self.pos,
        {
            if self.starts_with(&['/', '/']) && !self.starts_with(&['/', '/', '/']) {
                self.parse_line_comment();
                if !allow_newline {
                    break;
                }
                continue;
            }
            if self.starts_with(&['/', '*']) {
                self.parse_block_comment();
                continue;
            }
            if self.pos < self.limit && is_ws(self.source[self.pos]) {
                if allow_newline {
                    self.parse_whitespace();
                } else {
                    if self.source[self.pos] == '\n' {
                        break;
                    }
                    self.consume_inline_whitespace();
                }
                continue;
            }
            break;
        }
    }

    fn at_statement_end(&self) -> (r: bool)
        requires
            self.frame(),
        ensures
            r == (self.pos >= self.limit || self.at() == '\n'),
    {
        self.pos >= self.limit || self.source[self.pos] == '\n'
    }

    fn consume_identifier_like(&mut self)
        requires
            old(self).frame(),
        ensures
            final(self).frame(),
            final(self).same_frame(old(self)),
            final(self).events == old(self).events,
            final(self).pos == skip_spec(
                old(self).source@,
                old(self).pos as int,
                old(self).limit as int,
                CharClass::IdentContinue,
            ),
    {
        self.consume_class(CharClass::IdentContinue);
    }

    /// Consumes an identifier-like word, stopping before a comment.
    fn consume_word(&mut self)
        requires
            old(self).frame(),
        ensures
            final(self).frame(),
            final(self).same_frame(old(self)),
            final(self).events == old(self).events,
            final(self).pos == word_end_spec(
                old(self).source@,
                old(self).pos as int,
                old(self).limit as int,
            ),
    {
        proof {
            lemma_word_bounds(self.source@, self.pos as int, self.limit as int);
        }
        self.pos = word_end(self.source, self.pos, self.limit);
    }

    fn parse_capture(&mut self)
        requires
            old(self).inv(),
        ensures
            final(self).advanced(old(self)),
            old(self).pos < old(self).limit ==> final(self).pos > old(self).pos,
            old(self).pos < old(self).limit ==> opens_at(final(self).events@, old(self).events@.len() as int, SyntaxKind::Capture),
            old(self).pos < old(self).limit ==> final(self).pos == capture_end(
                old(self).source@,
                old(self).pos as int,
                old(self).limit as int,
            ),
    {
        if self.pos >= self.limit {
            return;
        }
        let start = self.pos;
        self.start_node(SyntaxKind::Capture);
        let ghost ev_open = self.events@;
        self.emit(SyntaxKind::LBrace, 1);
        let inner_start = self.pos;
        let ghost ev0 = self.events@;
        while self.pos < self.limit
            invariant
                self.frame(),
                self.same_frame(old(self)),
                extends_balanced(ev0, self.events@),
                tiles(self.events@, self.origin@, inner_start as int),
                inner_start <= self.pos,
                start < inner_start,
                old(self).pos == start,
                inner_start == start + 1,
                capture_text_end(self.source@, self.pos as int, self.limit as int) == capture_text_end(
                    self.source@,
                    inner_start as int,
                    self.limit as int,
                ),
            ensures
                self.frame(),
                self.same_frame(old(self)),
                extends_balanced(ev0, self.events@),
                tiles(self.events@, self.origin@, inner_start as int),
                inner_start <= self.pos,
                self.pos == capture_text_end(self.source@, inner_start as int, self.limit as int),
            decreases self.limit - self.pos,
        {
            let ch = self.source[self.pos];
            if ch == '}' || ch == '\n' || ch == '\r' {
                break;
            }
            self.advance_char();
        }
        let here = self.pos;
        self.token_from(SyntaxKind::Text, inner_start, here);
        if self.peek_is('}') {
            self.emit(SyntaxKind::RBrace, 1);
        } else {
            self.push_diagnostic(DiagnosticCode::ParseError, "Unterminated capture", start, here);
        }
        proof {
            lemma_kept_open(ev_open, self.events@, old(self).events@.len() as int, SyntaxKind::Capture);
        }
        self.finish_node();
    }

    fn parse_triple_string(&mut self)
        requires
            old(self).inv(),
            old(self).pos + 3 <= old(self).limit,
        ensures
            final(self).advanced(old(self)),
            final(self).pos > old(self).pos,
            opens_at(final(self).events@, old(self).events@.len() as int, SyntaxKind::TripleString),
            occurs_at(old(self).source@, old(self).pos as int, old(self).limit as int, seq!['"', '"', '"'])
                ==> final(self).pos == string_end(old(self).source@, old(self).pos as int, old(self).limit as int),
    {
        let start = self.pos;
        self.start_node(SyntaxKind::TripleString);
        let ghost ev_open = self.events@;
        self.emit(SyntaxKind::Quote, 3);
        let content_start = self.pos;
        match find(self.source, self.pos, self.limit, &['"', '"', '"']) {
            Some(end) => {
                self.pos = end;
                self.token_from(SyntaxKind::Text, content_start, end);
                self.emit(SyntaxKind::Quote, 3);
            },
            None => {
                self.pos = self.limit;
                let here = self.pos;
                self.token_from(SyntaxKind::Text, content_start, here);
                self.push_diagnostic(
                    DiagnosticCode::UnterminatedString,
                    "Unterminated triple string",
                    start,
                    here,
                );
            },
        }
        proof {
            lemma_kept_open(ev_open, self.events@, old(self).events@.len() as int, SyntaxKind::TripleString);
        }
        self.finish_node();
    }

    fn parse_string(&mut self)
        requires
            old(self).inv(),
        ensures
            final(self).advanced(old(self)),
            old(self).pos < old(self).limit ==> final(self).pos > old(self).pos,
            old(self).pos < old(self).limit ==> opens_at(
                final(self).events@,
                old(self).events@.len() as int,
                if occurs_at(old(self).source@, old(self).pos as int, old(self).limit as int, seq!['"', '"', '"']) {
                    SyntaxKind::TripleString
                } else {
                    SyntaxKind::String
                },
            ),
            old(self).pos < old(self).limit ==> final(self).pos == string_end(
                old(self).source@,
                old(self).pos as int,
                old(self).limit as int,
            ),
    {
        if self.pos >= self.limit {
            return;
        }
        if self.starts_with(&['"', '"', '"']) {
            self.parse_triple_string();
            return;
        }
        let start = self.pos;
        self.start_node(SyntaxKind::String);
        let ghost ev_open = self.events@;
        self.emit(SyntaxKind::Quote, 1);
        let content_start = self.pos;
        let ghost ev0 = self.events@;
        while self.pos < self.limit
            invariant
                self.frame(),
                self.same_frame(old(self)),
                extends_balanced(ev0, self.events@),
                tiles(self.events@, self.origin@, content_start as int),
                content_start <= self.pos,
                start < content_start,
                old(self).pos == start,
                content_start == start + 1,
                string_text_end(self.source@, self.pos as int, self.limit as int) == string_text_end(
                    self.source@,
                    content_start as int,
                    self.limit as int,
                ),
            ensures
                self.frame(),
                self.same_frame(old(self)),
                extends_balanced(ev0, self.events@),
                tiles(self.events@, self.origin@, content_start as int),
                content_start <= self.pos,
                self.pos == string_text_end(self.source@, content_start as int, self.limit as int),
            decreases self.limit - self.pos,
        {
            let ch = self.source[self.pos];
            if ch == '"' || ch == '\n' || ch == '\r' {
                break;
            }
            if ch == '\\' {
                self.advance_char();
                if self.pos < self.limit {
                    let next = self.source[self.pos];
                    if next != '\n' && next != '\r' {
                        self.advance_char();
                    }
                }
                continue;
            }
            self.advance_char();
        }
        let here = self.pos;
        self.token_from(SyntaxKind::Text, content_start, here);
        if self.peek_is('"') {
            self.emit(SyntaxKind::Quote, 1);
        } else {
            self.push_diagnostic(
                DiagnosticCode::UnterminatedString,
                "Unterminated string",
                start,
                here,
            );
        }
        proof {
            lemma_kept_open(ev_open, self.events@, old(self).events@.len() as int, SyntaxKind::String);
        }
        self.finish_node();
    }

    fn parse_uri(&mut self)
        requires
            old(self).inv(),
        ensures
            final(self).advanced(old(self)),
            old(self).pos < old(self).limit ==> final(self).pos > old(self).pos,
            old(self).pos < old(self).limit ==> opens_at(final(self).events@, old(self).events@.len() as int, SyntaxKind::Uri),
            old(self).pos < old(self).limit ==> final(self).pos == uri_end(
                old(self).source@,
                old(self).pos as int,
                old(self).limit as int,
            ),
    {
        if self.pos >= self.limit {
            return;
        }
        self.start_node(SyntaxKind::Uri);
        let ghost ev_open = self.events@;
        self.emit(SyntaxKind::LAngle, 1);
        let content_start = self.pos;
        let ghost ev0 = self.events@;
        while self.pos < self.limit
            invariant
                self.frame(),
                self.same_frame(old(self)),
                extends_balanced(ev0, self.events@),
                tiles(self.events@, self.origin@, content_start as int),
                content_start <= self.pos,
                old(self).pos < content_start,
                content_start == old(self).pos + 1,
                uri_text_end(self.source@, self.pos as int, self.limit as int) == uri_text_end(
                    self.source@,
                    content_start as int,
                    self.limit as int,
                ),
            ensures
                self.frame(),
                self.same_frame(old(self)),
                extends_balanced(ev0, self.events@),
                tiles(self.events@, self.origin@, content_start as int),
                content_start <= self.pos,
                self.pos == uri_text_end(self.source@, content_start as int, self.limit as int),
            decreases self.limit - self.pos,
        {
            let ch = self.source[self.pos];
            if ch == '>' || is_ws(ch) {
                break;
            }
            self.advance_char();
        }
        let here = self.pos;
        self.token_from(SyntaxKind::Text, content_start, here);
        if self.peek_is('>') {
            self.emit(SyntaxKind::RAngle, 1);
        } else {
            self.push_diagnostic(
                DiagnosticCode::ParseError,
                "Unterminated URI literal",
                content_start - 1,
                here,
            );
        }
        proof {
            lemma_kept_open(ev_open, self.events@, old(self).events@.len() as int, SyntaxKind::Uri);
        }
        self.finish_node();
    }

    fn parse_local_subject_marker(&mut self)
        requires
            old(self).inv(),
        ensures
            final(self).advanced(old(self)),
            !(marker_spec(old(self).source@, old(self).pos as int, old(self).limit as int) is Absent)
                ==> final(self).pos > old(self).pos,
            final(self).pos == old(self).pos + marker_len(
                old(self).source@,
                old(self).pos as int,
                old(self).limit as int,
            ),
    {
        let marker = local_subject_marker_at(self.source, self.pos, self.limit);
        let (len, invalid) = match marker {
            LocalSubjectMarkerMatch::Valid(len) => (len, false),
            LocalSubjectMarkerMatch::Invalid(len) => (len, true),
            LocalSubjectMarkerMatch::Absent => {
                return;
            },
        };
        let start = self.pos;
        let end = start + len;
        let ghost ms: int = if self.source@[start as int] == '~' {
            1
        } else {
            0
        };
        proof {
            lemma_skip_bounds(self.source@, start + ms, self.limit as int, CharClass::Angle);
        }
        let disallowed = self.context != RegionContext::Intralinea;
        let kind = if disallowed {
            SyntaxKind::Error
        } else {
            SyntaxKind::LocalSubjectMarker
        };
        self.start_node(kind);
        let ghost ev0 = self.events@;
        while self.pos < end
            invariant
                self.inv(),
                self.same_frame(old(self)),
                extends_balanced(ev0, self.events@),
                start <= self.pos <= end <= self.limit,
                start < end,
                old(self).pos == start,
                self.pos == start ==> (self.at() == '~' || self.at() == '<' || self.at() == '>'),
                ms == 1 ==> self.source@[start as int] == '~',
                0 <= ms <= 1,
                forall|k: int| start + ms <= k < end ==> in_class(#[trigger] self.source@[k], CharClass::Angle),
            ensures
                self.inv(),
                self.same_frame(old(self)),
                extends_balanced(ev0, self.events@),
                start < self.pos <= end,
                self.pos == end,
            decreases end - self.pos,
        {
            let ch = self.source[self.pos];
            if ch == '~' {
                self.emit(SyntaxKind::Tilde, 1);
            } else if ch == '<' {
                self.emit(SyntaxKind::LAngle, 1);
            } else if ch == '>' {
                self.emit(SyntaxKind::RAngle, 1);
            } else {
                break;
            }
        }
        self.finish_node();
        if invalid || disallowed {
            self.push_diagnostic(
                DiagnosticCode::InvalidLocalSubjectMarker,
                if disallowed {
                    "Local subject markers are only valid in intralinea regions"
                } else {
                    "Invalid local subject marker"
                },
                start,
                end,
            );
        }
    }

    fn parse_backtick_chunk(&mut self)
        requires
            old(self).inv(),
        ensures
            final(self).advanced(old(self)),
            old(self).pos < old(self).limit ==> final(self).pos > old(self).pos,
            old(self).pos < old(self).limit ==> final(self).pos == backtick_end(
                old(self).source@,
                old(self).pos as int,
                old(self).limit as int,
            ),
    {
        if self.pos >= self.limit {
            return;
        }
        let start = self.pos;
        self.emit(SyntaxKind::Backtick, 1);
        let content_start = self.pos;
        while self.pos < self.limit
            invariant
                self.frame(),
                self.same_frame(old(self)),
                extends_balanced(old(self).events@, self.events@),
                tiles(self.events@, self.origin@, content_start as int),
                content_start <= self.pos,
                start < content_start,
                old(self).pos == start,
                content_start == start + 1,
                backtick_text_end(self.source@, self.pos as int, self.limit as int) == backtick_text_end(
                    self.source@,
                    content_start as int,
                    self.limit as int,
                ),
            ensures
                self.frame(),
                self.same_frame(old(self)),
                extends_balanced(old(self).events@, self.events@),
                tiles(self.events@, self.origin@, content_start as int),
                content_start <= self.pos,
                self.pos == backtick_text_end(self.source@, content_start as int, self.limit as int),
            decreases self.limit - self.pos,
        {
            let ch = self.source[self.pos];
            if ch == '`' || ch == '\n' || ch == '\r' {
                break;
            }
            self.advance_char();
        }
        let here = self.pos;
        self.token_from(SyntaxKind::Text, content_start, here);
        if self.peek_is('`') {
            self.emit(SyntaxKind::Backtick, 1);
        } else {
            self.push_diagnostic(
                DiagnosticCode::ParseError,
                "Unterminated backtick chunk",
                start,
                here,
            );
        }
    }

    fn parse_number(&mut self)
        requires
            old(self).inv(),
        ensures
            final(self).advanced(old(self)),
            old(self).pos < old(self).limit && (is_digit_spec(old(self).at()) || old(self).at()
                == '-') ==> final(self).pos > old(self).pos,
            opens_at(final(self).events@, old(self).events@.len() as int, SyntaxKind::Number),
            final(self).pos == number_end(old(self).source@, old(self).pos as int, old(self).limit as int),
    {
        let start = self.pos;
        if self.peek_is('-') {
            self.pos = self.pos + 1;
        }
        proof {
            lemma_skip_bounds(self.source@, self.pos as int, self.limit as int, CharClass::Digit);
        }
        self.consume_class(CharClass::Digit);
        if self.peek_is('.') && self.pos + 1 < self.limit && is_digit(self.source[self.pos + 1]) {
            self.pos = self.pos + 1;
            proof {
                lemma_skip_bounds(
                    self.source@,
                    self.pos as int,
                    self.limit as int,
                    CharClass::Digit,
                );
            }
            self.consume_class(CharClass::Digit);
        }
        self.start_node(SyntaxKind::Number);
        let ghost ev_open = self.events@;
        let here = self.pos;
        self.token_from(SyntaxKind::Text, start, here);
        proof {
            lemma_kept_open(ev_open, self.events@, old(self).events@.len() as int, SyntaxKind::Number);
        }
        self.finish_node();
    }

    /// The kind of an identifier-like word: `true` and `false` are
    /// booleans.
    fn word_kind(&self, start: usize, end: usize) -> (r: SyntaxKind)
        requires
            self.frame(),
            start <= end <= self.limit,
        ensures
            r == word_kind_spec(self.source@, start as int, end as int),
            r == SyntaxKind::Boolean || r == SyntaxKind::Identifier,
    {
        if self.spells(start, end, &['t', 'r', 'u', 'e']) || self.spells(
            start,
            end,
            &['f', 'a', 'l', 's', 'e'],
        ) {
            SyntaxKind::Boolean
        } else {
            SyntaxKind::Identifier
        }
    }

    fn parse_identifier_like(&mut self)
        requires
            old(self).inv(),
        ensures
            final(self).advanced(old(self)),
            old(self).pos < old(self).limit && is_identifier_continue_spec(old(self).at()) && old(
                self,
            ).at() != '/'
                ==> final(self).pos > old(self).pos,
            final(self).pos == word_end_spec(old(self).source@, old(self).pos as int, old(self).limit as int),
            opens_at(final(self).events@, old(self).events@.len() as int, word_kind_spec(old(self).source@, old(self).pos as int, word_end_spec(old(self).source@, old(self).pos as int, old(self).limit as int))),
    {
        let start = self.pos;
        proof {
            lemma_word_bounds(self.source@, start as int, self.limit as int);
        }
        self.consume_word();
        let end = self.pos;
        let kind = self.word_kind(start, end);
        self.start_node(kind);
        let ghost ev_open = self.events@;
        self.token_from(SyntaxKind::Text, start, end);
        proof {
            lemma_kept_open(ev_open, self.events@, old(self).events@.len() as int, kind);
        }
        self.finish_node();
    }

    fn parse_subject_or_object_identifier(&mut self) -> (r: ValueParseState)
        requires
            old(self).inv(),
        ensures
            final(self).advanced(old(self)),
            old(self).pos < old(self).limit && is_identifier_continue_spec(old(self).at()) && old(
                self,
            ).at() != '/'
                ==> final(self).pos > old(self).pos,
            r.has_value,
            final(self).pos == word_end_spec(old(self).source@, old(self).pos as int, old(self).limit as int),
            r.has_error == lowercase_identifier(old(self).source@, old(self).pos as int, old(self).limit as int),
            opens_at(
                final(self).events@,
                old(self).events@.len() as int,
                if lowercase_identifier(old(self).source@, old(self).pos as int, old(self).limit as int) {
                    SyntaxKind::Error
                } else {
                    word_kind_spec(
                        old(self).source@,
                        old(self).pos as int,
                        word_end_spec(old(self).source@, old(self).pos as int, old(self).limit as int),
                    )
                },
            ),
    {
        let start = self.pos;
        proof {
            lemma_word_bounds(self.source@, start as int, self.limit as int);
        }
        self.consume_word();
        let end = self.pos;
        let kind = self.word_kind(start, end);
        let invalid = kind == SyntaxKind::Identifier && end > start && (is_lower(self.source[start])
            || self.source[start] == '_');
        let ghost n0 = self.events@.len() as int;
        if invalid {
            self.start_node(SyntaxKind::Error);
        }
        let ghost ev_error = self.events@;
        self.start_node(kind);
        let ghost ev_kind = self.events@;
        self.token_from(SyntaxKind::Text, start, end);
        proof {
            if !invalid {
                lemma_kept_open(ev_kind, self.events@, n0, kind);
            }
        }
        self.finish_node();
        if invalid {
            proof {
                assert(extends_balanced(ev_error, self.events@));
                lemma_kept_open(ev_error, self.events@, n0, SyntaxKind::Error);
            }
            self.finish_node();
            self.push_diagnostic(
                DiagnosticCode::ParseError,
                "Lowercase identifiers are only valid as predicates",
                start,
                end,
            );
            ValueParseState { has_value: true, has_error: true }
        } else {
            ValueParseState { has_value: true, has_error: false }
        }
    }

    fn parse_predicate_identifier(&mut self) -> (r: ValueParseState)
        requires
            old(self).inv(),
        ensures
            final(self).advanced(old(self)),
            old(self).pos < old(self).limit && is_identifier_continue_spec(old(self).at()) && old(
                self,
            ).at() != '/'
                ==> final(self).pos > old(self).pos,
            final(self).pos == word_end_spec(old(self).source@, old(self).pos as int, old(self).limit as int),
            (r.has_value, r.has_error) == (if word_kind_spec(
                old(self).source@,
                old(self).pos as int,
                word_end_spec(old(self).source@, old(self).pos as int, old(self).limit as int),
            ) == SyntaxKind::Boolean {
                (false, true)
            } else {
                (true, false)
            }),
    {
        let start = self.pos;
        proof {
            lemma_word_bounds(self.source@, start as int, self.limit as int);
        }
        self.consume_word();
        let end = self.pos;
        let kind = self.word_kind(start, end);
        let is_boolean = kind == SyntaxKind::Boolean;
        if is_boolean {
            self.start_node(SyntaxKind::Error);
        }
        self.start_node(kind);
        self.token_from(SyntaxKind::Text, start, end);
        self.finish_node();
        if is_boolean {
            self.finish_node();
            ValueParseState { has_value: false, has_error: true }
        } else {
            ValueParseState { has_value: true, has_error: false }
        }
    }

    fn parse_snippet(&mut self)
        requires
            old(self).inv(),
        ensures
            final(self).advanced(old(self)),
            old(self).pos < old(self).limit ==> final(self).pos > old(self).pos,
            old(self).pos < old(self).limit ==> opens_at(
                final(self).events@,
                old(self).events@.len() as int,
                if contains_range_spec(
                    old(self).source@,
                    old(self).pos as int,
                    old(self).limit as int,
                    old(self).context == RegionContext::Intralinea,
                ) {
                    SyntaxKind::RangeSnippet
                } else {
                    SyntaxKind::Snippet
                },
            ),
            old(self).pos < old(self).limit ==> final(self).pos == snippet_end(
                old(self).source@,
                old(self).pos as int,
                old(self).limit as int,
            ),
            old(self).pos < old(self).limit && quantifier_at(
                old(self).source@,
                snippet_body_close(old(self).source@, old(self).pos as int, old(self).limit as int),
                old(self).limit as int,
            ) ==> opens_at(final(self).events@, final(self).events@.len() - 4, SyntaxKind::Quantifier),
            old(self).pos < old(self).limit && !({
                let t = snippet_text_end(old(self).source@, old(self).pos + 1, old(self).limit as int);
                t < old(self).limit && old(self).source@[t] == ']'
            }) ==> final(self).diagnostics@.len() > 0 && final(self).diagnostics@.last().code
                == DiagnosticCode::UnterminatedSnippet,
    {
        if self.pos >= self.limit {
            return;
        }
        let start = self.pos;
        let is_range = snippet_contains_range(
            self.source,
            self.pos,
            self.limit,
            self.context == RegionContext::Intralinea,
        );
        let kind = if is_range {
            SyntaxKind::RangeSnippet
        } else {
            SyntaxKind::Snippet
        };
        self.start_node(kind);
        let ghost ev1 = self.events@;
        self.emit(SyntaxKind::LBrack, 1);
        let mut text_start = self.pos;
        let mut seen_capture = false;
        let ghost ev0 = self.events@;
        while self.pos < self.limit
            invariant
                self.frame(),
                self.same_frame(old(self)),
                extends_balanced(ev0, self.events@),
                tiles(self.events@, self.origin@, text_start as int),
                text_start <= self.pos,
                start < text_start,
                old(self).pos == start,
                start + 1 <= self.pos,
                snippet_text_end(self.source@, self.pos as int, self.limit as int) == snippet_text_end(
                    self.source@,
                    start + 1,
                    self.limit as int,
                ),
            ensures
                self.frame(),
                self.same_frame(old(self)),
                extends_balanced(ev0, self.events@),
                tiles(self.events@, self.origin@, text_start as int),
                text_start <= self.pos,
                start < text_start,
                self.pos == snippet_text_end(self.source@, start + 1, self.limit as int),
            decreases self.limit - self.pos,
        {
            let ch = self.source[self.pos];
            if ch == ']' || ch == '\n' || ch == '\r' {
                break;
            }
            proof {
                lemma_value_ends(self.source@, self.pos as int, self.limit as int);
            }
            if ch == '"' {
                let here = self.pos;
                self.token_from(SyntaxKind::Text, text_start, here);
                self.start_node(SyntaxKind::QuotedSnippetPart);
                self.parse_string();
                self.finish_node();
                text_start = self.pos;
            } else if ch == '{' {
                let here = self.pos;
                self.token_from(SyntaxKind::Text, text_start, here);
                let capture_start = self.pos;
                let invalid_capture = is_range || seen_capture;
                if invalid_capture {
                    self.start_node(SyntaxKind::Error);
                }
                self.parse_capture();
                if invalid_capture {
                    self.finish_node();
                    let after = self.pos;
                    self.push_diagnostic(
                        DiagnosticCode::ParseError,
                        if is_range {
                            "Captures are not allowed inside range snippets"
                        } else {
                            "Snippets may contain at most one capture"
                        },
                        capture_start,
                        after,
                    );
                }
                seen_capture = true;
                text_start = self.pos;
            } else {
                self.advance_char();
            }
        }
        let here = self.pos;
        self.token_from(SyntaxKind::Text, text_start, here);
        if self.peek_is(']') {
            self.emit(SyntaxKind::RBrack, 1);
        } else {
            self.push_diagnostic(
                DiagnosticCode::UnterminatedSnippet,
                "Unterminated snippet",
                start,
                here,
            );
        }
        if self.peek_is('+') || self.peek_is('*') || self.peek_is('?') {
            self.start_node(SyntaxKind::Quantifier);
            self.emit(SyntaxKind::Text, 1);
            self.finish_node();
        }
        proof {
            lemma_kept_open(ev1, self.events@, old(self).events@.len() as int, kind);
        }
        self.finish_node();
    }

    fn parse_invalid_statement_value(&mut self)
        requires
            old(self).inv(),
        ensures
            final(self).advanced(old(self)),
            old(self).pos < old(self).limit ==> final(self).pos > old(self).pos,
            opens_at(final(self).events@, old(self).events@.len() as int, SyntaxKind::Error),
            old(self).pos < old(self).limit ==> final(self).pos == old(self).pos + 1,
    {
        let start = self.pos;
        self.start_node(SyntaxKind::Error);
        let ghost ev_open = self.events@;
        if self.pos < self.limit {
            let ch = self.source[self.pos];
            if ch == '+' || ch == '*' || ch == '?' {
                self.start_node(SyntaxKind::Quantifier);
                self.emit(SyntaxKind::Text, 1);
                self.finish_node();
            } else {
                self.emit(SyntaxKind::Text, 1);
            }
        }
        proof {
            lemma_kept_open(ev_open, self.events@, old(self).events@.len() as int, SyntaxKind::Error);
        }
        self.finish_node();
        let here = self.pos;
        self.push_diagnostic(
            DiagnosticCode::ParseError,
            "Unexpected token in statement value",
            start,
            here,
        );
    }

    /// A capture or backtick chunk where only other values are allowed.
    fn parse_disallowed_statement_value(&mut self, message: &str, capture: bool) -> (r:
        ValueParseState)
        requires
            old(self).inv(),
        ensures
            final(self).advanced(old(self)),
            old(self).pos < old(self).limit ==> final(self).pos > old(self).pos,
            !r.has_value && r.has_error,
            opens_at(final(self).events@, old(self).events@.len() as int, SyntaxKind::Error),
            old(self).pos < old(self).limit ==> final(self).pos == if capture {
                capture_end(old(self).source@, old(self).pos as int, old(self).limit as int)
            } else {
                backtick_end(old(self).source@, old(self).pos as int, old(self).limit as int)
            },
    {
        let start = self.pos;
        self.start_node(SyntaxKind::Error);
        let ghost ev_open = self.events@;
        if capture {
            self.parse_capture();
        } else {
            self.parse_backtick_chunk();
        }
        proof {
            lemma_kept_open(ev_open, self.events@, old(self).events@.len() as int, SyntaxKind::Error);
        }
        self.finish_node();
        let here = self.pos;
        self.push_diagnostic(DiagnosticCode::ParseError, message, start, here);
        ValueParseState { has_value: false, has_error: true }
    }

    fn parse_statement_value(&mut self, context: StatementValueContext, allow_equals: bool) -> (r:
        ValueParseState)
        requires
            old(self).inv(),
        ensures
            final(self).advanced(old(self)),
            old(self).pos < old(self).limit && !is_stop(old(self).at()) ==> final(self).pos > old(
                self,
            ).pos,
            (r.has_value, r.has_error) == value_outcome(
                old(self).source@,
                old(self).pos as int,
                old(self).limit as int,
                context == StatementValueContext::PredicateRecovery,
                allow_equals,
            ),
            final(self).pos == value_end(
                old(self).source@,
                old(self).pos as int,
                old(self).limit as int,
                allow_equals,
            ),
            value_node(
                old(self).source@,
                old(self).pos as int,
                old(self).limit as int,
                context == StatementValueContext::PredicateRecovery,
                allow_equals,
                old(self).context == RegionContext::Intralinea,
            ) matches Some((offset, kind)) ==> opens_at(
                final(self).events@,
                old(self).events@.len() + offset,
                kind,
            ),
    {
        if self.pos >= self.limit {
            return ValueParseState { has_value: false, has_error: false };
        }
        let ch = self.source[self.pos];
        if ch == '[' {
            self.parse_snippet();
            ValueParseState { has_value: true, has_error: false }
        } else if ch == '{' {
            if context == StatementValueContext::PredicateRecovery {
                self.parse_capture();
                ValueParseState { has_value: true, has_error: false }
            } else {
                self.parse_disallowed_statement_value(
                    "Captures are only valid inside snippets",
                    true,
                )
            }
        } else if ch == '"' {
            self.parse_string();
            ValueParseState { has_value: true, has_error: false }
        } else if ch == '<' {
            self.parse_uri();
            ValueParseState { has_value: true, has_error: false }
        } else if ch == '`' {
            if context == StatementValueContext::PredicateRecovery {
                self.parse_backtick_chunk();
                ValueParseState { has_value: true, has_error: false }
            } else {
                self.parse_disallowed_statement_value(
                    "Backtick chunks are only valid as predicates",
                    false,
                )
            }
        } else if ch == '~' && self.starts_with(&['~', '[']) {
            self.emit(SyntaxKind::Tilde, 1);
            self.parse_snippet();
            ValueParseState { has_value: true, has_error: false }
        } else if ch == '+' || ch == '*' || ch == '?' {
            self.parse_invalid_statement_value();
            ValueParseState { has_value: false, has_error: true }
        } else if is_digit(ch) || (ch == '-' && self.pos + 1 < self.limit && is_digit(
            self.source[self.pos + 1],
        )) {
            self.parse_number();
            ValueParseState { has_value: true, has_error: false }
        } else if is_identifier_start(ch) {
            if context == StatementValueContext::SubjectOrObject {
                self.parse_subject_or_object_identifier()
            } else {
                self.parse_identifier_like();
                ValueParseState { has_value: true, has_error: false }
            }
        } else if ch == '=' && allow_equals {
            self.emit(SyntaxKind::Text, 1);
            ValueParseState { has_value: true, has_error: false }
        } else if ch == '.' || ch == ',' || ch == ';' {
            ValueParseState { has_value: false, has_error: false }
        } else {
            self.parse_invalid_statement_value();
            ValueParseState { has_value: false, has_error: true }
        }
    }

    /// Parses any value, returning whether one was consumed.
    fn parse_value(&mut self) -> (r: bool)
        requires
            old(self).inv(),
        ensures
            final(self).advanced(old(self)),
            r == (old(self).pos < old(self).limit && !is_stop(old(self).at())),
            r ==> final(self).pos > old(self).pos,
            !r ==> final(self).pos == old(self).pos,
            final(self).pos == any_value_end(old(self).source@, old(self).pos as int, old(self).limit as int),
    {
        match local_subject_marker_at(self.source, self.pos, self.limit) {
            LocalSubjectMarkerMatch::Valid(_) | LocalSubjectMarkerMatch::Invalid(_) => {
                self.parse_local_subject_marker();
                return true;
            },
            LocalSubjectMarkerMatch::Absent => {},
        }
        if self.pos >= self.limit {
            return false;
        }
        let ch = self.source[self.pos];
        if ch == '[' {
            self.parse_snippet();
            true
        } else if ch == '{' {
            self.parse_capture();
            true
        } else if ch == '"' {
            self.parse_string();
            true
        } else if ch == '<' {
            self.parse_uri();
            true
        } else if ch == '`' {
            self.parse_backtick_chunk();
            true
        } else if ch == '~' && self.starts_with(&['~', '[']) {
            self.emit(SyntaxKind::Tilde, 1);
            self.parse_snippet();
            true
        } else if ch == '+' || ch == '*' || ch == '?' {
            self.start_node(SyntaxKind::Quantifier);
            self.emit(SyntaxKind::Text, 1);
            self.finish_node();
            true
        } else if is_digit(ch) {
            self.parse_number();
            true
        } else if is_identifier_start(ch) {
            self.parse_identifier_like();
            true
        } else if ch == '.' || ch == ',' || ch == ';' {
            false
        } else {
            self.emit(SyntaxKind::Text, 1);
            true
        }
    }

    fn starts_statement_value(&self, allow_equals: bool) -> (r: bool)
        requires
            self.frame(),
        ensures
            r == starts_value_spec(self.source@, self.pos as int, self.limit as int, allow_equals),
            r ==> self.pos < self.limit && !is_stop(self.at()),
    {
        if self.starts_with(&[':', ':']) {
            return false;
        }
        match local_subject_marker_at(self.source, self.pos, self.limit) {
            LocalSubjectMarkerMatch::Absent => {},
            _ => {
                return false;
            },
        }
        if self.pos >= self.limit {
            return false;
        }
        let ch = self.source[self.pos];
        if ch == '[' || ch == '{' || ch == '"' || ch == '<' || ch == '`' {
            true
        } else if ch == '~' {
            self.starts_with(&['~', '['])
        } else if ch == '+' || ch == '*' || ch == '?' {
            true
        } else if is_digit(ch) || is_identifier_start(ch) {
            true
        } else {
            ch == '=' && allow_equals
        }
    }

    /// Parses values up to the end of the region, as in a directive's
    /// argument.
    fn parse_inline_value_until_end(&mut self)
        requires
            old(self).inv(),
        ensures
            final(self).advanced(old(self)),
            final(self).pos == final(self).limit,
    {
        while self.pos < self.limit
            invariant
                self.advanced(old(self)),
            decreases self.limit - self.pos,
        {
            if is_ws(self.source[self.pos]) {
                let start = self.pos;
                while self.pos < self.limit && is_ws(self.source[self.pos])
                    invariant
                        self.frame(),
                        self.same_frame(old(self)),
                        extends_balanced(old(self).events@, self.events@),
                extends_balanced(old(self).events@, self.events@),
                        tiles(self.events@, self.origin@, start as int),
                        start <= self.pos,
                    decreases self.limit - self.pos,
                {
                    self.advance_char();
                }
                let here = self.pos;
                self.token_from(SyntaxKind::Whitespace, start, here);
            } else if !self.parse_value() {
                self.emit(SyntaxKind::Text, 1);
            }
        }
    }

    fn parse_directive(&mut self)
        requires
            old(self).inv(),
            old(self).pos < old(self).limit,
            old(self).at() == '@',
        ensures
            final(self).advanced(old(self)),
            final(self).pos > old(self).pos,
            opens_at(
                final(self).events@,
                old(self).events@.len() as int,
                directive_kind(old(self).source@, old(self).pos + 1, old(self).limit as int),
            ),
    {
        let start = self.pos;
        let name_start = start + 1;
        let name_end = skip(self.source, name_start, self.limit, CharClass::IdentContinue);
        proof {
            lemma_skip_bounds(
                self.source@,
                name_start as int,
                self.limit as int,
                CharClass::IdentContinue,
            );
        }
        let kind = if self.spells(name_start, name_end, &['t', 'a', 'r', 'g', 'e', 't']) {
            SyntaxKind::TargetDirective
        } else if self.spells(name_start, name_end, &['p', 'r', 'o', 'f', 'i', 'l', 'e']) {
            SyntaxKind::ProfileDirective
        } else {
            SyntaxKind::Directive
        };
        if self.statement_seen || !is_line_start(self.source, self.base, self.pos) {
            self.push_diagnostic(
                DiagnosticCode::InvalidDirectivePosition,
                "Directives must appear in the header before the first statement",
                start,
                start + 1,
            );
        }
        let line_end = find_line_end(self.source, self.pos, self.limit);
        proof {
            lemma_skip_bounds(
                self.source@,
                start as int,
                self.limit as int,
                CharClass::NotNewline,
            );
        }
        let content_end = line_content_end(self.source, self.base, self.limit, line_end);
        proof {
            // The directive name never runs past the line's content.
            if name_end > line_end {
                assert(in_class(self.source@[line_end as int], CharClass::IdentContinue));
            }
            if content_end < line_end && name_end == line_end && name_end > name_start {
                assert(in_class(self.source@[line_end - 1], CharClass::IdentContinue));
            }
        }
        self.start_node(kind);
        let ghost ev1 = self.events@;
        let ghost n0 = old(self).events@.len() as int;
        self.emit(SyntaxKind::At, 1);
        self.consume_identifier_like();
        let here = self.pos;
        self.token_from(SyntaxKind::Identifier, start + 1, here);
        if self.pos < content_end {
            let ws_start = self.pos;
            let ws_end = skip(self.source, ws_start, content_end, CharClass::Ws);
            self.token_from(SyntaxKind::Whitespace, ws_start, ws_end);
            self.pos = ws_end;
            if self.pos < content_end {
                // The value is parsed as a region of its own that ends with
                // the line's content.
                let saved_base = self.base;
                let saved_limit = self.limit;
                let saved_unterminated = self.unterminated_statement;
                self.base = self.pos;
                self.limit = content_end;
                self.unterminated_statement = None;
                self.parse_inline_value_until_end();
                self.base = saved_base;
                self.limit = saved_limit;
                self.unterminated_statement = saved_unterminated;
            }
        }
        proof {
            lemma_kept_open(ev1, self.events@, n0, kind);
        }
        self.finish_node();
        self.pos = content_end;
    }

    fn parse_decoration(&mut self)
        requires
            old(self).inv(),
            old(self).pos + 2 <= old(self).limit,
        ensures
            final(self).advanced(old(self)),
            final(self).pos > old(self).pos,
            opens_at(final(self).events@, old(self).events@.len() as int, SyntaxKind::Decoration),
            final(self).pos == decoration_end(old(self).source@, old(self).pos as int, old(self).limit as int),
    {
        self.start_node(SyntaxKind::Decoration);
        let ghost ev1 = self.events@;
        self.emit(SyntaxKind::ColonColon, 2);
        self.consume_statement_trivia(false);
        if self.peek_is('"') {
            self.parse_string();
        } else {
            let start = self.pos;
            self.start_node(SyntaxKind::Error);
            self.parse_value();
            self.finish_node();
            let here = self.pos;
            self.push_diagnostic(
                DiagnosticCode::ParseError,
                "Expected quoted string after decoration",
                start,
                here,
            );
        }
        proof {
            lemma_kept_open(ev1, self.events@, old(self).events@.len() as int, SyntaxKind::Decoration);
        }
        self.finish_node();
    }

    fn marker_here(&self) -> (r: bool)
        requires
            self.frame(),
        ensures
            r == !(marker_spec(self.source@, self.pos as int, self.limit as int) is Absent),
    {
        match local_subject_marker_at(self.source, self.pos, self.limit) {
            LocalSubjectMarkerMatch::Absent => false,
            _ => true,
        }
    }

    fn parse_subject_like(&mut self) -> (r: ValueParseState)
        requires
            old(self).inv(),
        ensures
            final(self).advanced(old(self)),
            old(self).pos < old(self).limit && !is_stop(old(self).at()) ==> final(self).pos > old(
                self,
            ).pos,
            final(self).pos == subject_end(old(self).source@, old(self).pos as int, old(self).limit as int),
    {
        match local_subject_marker_at(self.source, self.pos, self.limit) {
            LocalSubjectMarkerMatch::Valid(_) => {
                self.parse_local_subject_marker();
                self.consume_statement_trivia(false);
                if self.context == RegionContext::Intralinea {
                    ValueParseState { has_value: true, has_error: false }
                } else {
                    ValueParseState { has_value: false, has_error: true }
                }
            },
            LocalSubjectMarkerMatch::Invalid(_) => {
                self.parse_local_subject_marker();
                self.consume_statement_trivia(false);
                ValueParseState { has_value: false, has_error: true }
            },
            LocalSubjectMarkerMatch::Absent => {
                self.parse_statement_value(StatementValueContext::SubjectOrObject, false)
            },
        }
    }

    fn parse_predicate_like(&mut self) -> (r: ValueParseState)
        requires
            old(self).inv(),
        ensures
            final(self).advanced(old(self)),
            old(self).pos < old(self).limit && !is_stop(old(self).at()) ==> final(self).pos > old(
                self,
            ).pos,
            final(self).pos == predicate_end(old(self).source@, old(self).pos as int, old(self).limit as int),
            (r.has_value, r.has_error) == predicate_outcome(
                old(self).source@,
                old(self).pos as int,
                old(self).limit as int,
            ),
    {
        if self.peek_is('`') {
            self.start_node(SyntaxKind::BacktickPredicate);
            self.parse_backtick_chunk();
            self.finish_node();
            ValueParseState { has_value: true, has_error: false }
        } else if self.peek_is('=') {
            self.emit(SyntaxKind::Text, 1);
            ValueParseState { has_value: true, has_error: false }
        } else if self.pos < self.limit && is_lower(self.source[self.pos]) {
            self.parse_predicate_identifier()
        } else {
            self.start_node(SyntaxKind::Error);
            let invalid = self.parse_statement_value(
                StatementValueContext::PredicateRecovery,
                false,
            );
            if !invalid.has_value && !invalid.has_error {
                self.push_empty_error();
            }
            self.finish_node();
            ValueParseState { has_value: false, has_error: true }
        }
    }

    fn parse_object_like(&mut self) -> (r: ValueParseState)
        requires
            old(self).inv(),
        ensures
            final(self).advanced(old(self)),
            old(self).pos < old(self).limit && old(self).at() == ',' ==> final(self).pos == old(
                self,
            ).pos,
            object_stop(old(self).source@, old(self).pos as int, old(self).limit as int) ==> !r.has_value
                && !r.has_error && *final(self) == *old(self),
            !object_stop(old(self).source@, old(self).pos as int, old(self).limit as int) ==> (
            r.has_value, r.has_error) == value_outcome(
                old(self).source@,
                old(self).pos as int,
                old(self).limit as int,
                false,
                false,
            ) && final(self).pos > old(self).pos,
            !object_stop(old(self).source@, old(self).pos as int, old(self).limit as int) ==> final(self).pos
                == trivia_end(
                old(self).source@,
                value_end(old(self).source@, old(self).pos as int, old(self).limit as int, false),
                old(self).limit as int,
                false,
            ),
    {
        if self.at_statement_end() || self.peek_is(',') || self.peek_is(';') || self.peek_is('.')
            || self.starts_with(&[':', ':']) || self.marker_here() {
            ValueParseState { has_value: false, has_error: false }
        } else {
            let value = self.parse_statement_value(StatementValueContext::SubjectOrObject, false);
            if value.has_value || value.has_error {
                self.consume_statement_trivia(false);
            }
            value
        }
    }

    #[verifier::rlimit(60)]
    #[verifier::spinoff_prover]
    fn parse_object_list(&mut self) -> (r: ValueParseState)
        requires
            old(self).inv(),
        ensures
            final(self).advanced(old(self)),
            old(self).pos < old(self).limit && old(self).at() == ',' ==> final(self).pos > old(
                self,
            ).pos,
            opens_at(final(self).events@, old(self).events@.len() as int, SyntaxKind::ObjectList),
            opens_at(final(self).events@, old(self).events@.len() + 1int, SyntaxKind::Object),
            object_stop(old(self).source@, old(self).pos as int, old(self).limit as int) ==> r.has_error,
            !object_stop(old(self).source@, old(self).pos as int, old(self).limit as int) ==> ({
                let first = value_outcome(
                    old(self).source@,
                    old(self).pos as int,
                    old(self).limit as int,
                    false,
                    false,
                );
                (first.0 ==> r.has_value) && (first.1 || !first.0 ==> r.has_error)
            }),
            final(self).pos == object_list_end(old(self).source@, old(self).pos as int, old(self).limit as int),
    {
        let mut has_object = false;
        let mut has_error = false;
        let ghost p0 = self.pos;
        self.start_node(SyntaxKind::ObjectList);
        let ghost ev0 = self.events@;
        let ghost n0 = old(self).events@.len() as int;
        let ghost first_stop = object_stop(self.source@, p0 as int, self.limit as int);
        let ghost first = value_outcome(self.source@, p0 as int, self.limit as int, false, false);
        let ghost mut first_done = false;
        loop
            invariant_except_break
                object_list_end(self.source@, self.pos as int, self.limit as int) == object_list_end(
                    self.source@,
                    p0 as int,
                    self.limit as int,
                ),
            invariant
                self.advanced_from(old(self), ev0),
                old(self).pos == p0,
                ev0 == old(self).events@.push(TreeEvent::Start(SyntaxKind::ObjectList)),
                n0 == old(self).events@.len(),
                first_stop == object_stop(old(self).source@, p0 as int, old(self).limit as int),
                first == value_outcome(old(self).source@, p0 as int, old(self).limit as int, false, false),
                !first_done ==> self.events@ == ev0 && self.pos == p0,
                first_done ==> opens_at(self.events@, n0 + 1, SyntaxKind::Object),
                first_done ==> (first_stop ==> has_error) && (!first_stop ==> (first.0 ==> has_object)
                    && (first.1 || !first.0 ==> has_error)),
                old(self).pos < old(self).limit && old(self).at() == ',' && self.pos == p0
                    ==> self.pos < self.limit && self.at() == ',',
            ensures
                self.advanced_from(old(self), ev0),
                old(self).pos < old(self).limit && old(self).at() == ',' ==> self.pos > p0,
                opens_at(self.events@, n0 + 1, SyntaxKind::Object),
                self.pos == object_list_end(self.source@, p0 as int, self.limit as int),
                (first_stop ==> has_error) && (!first_stop ==> (first.0 ==> has_object) && (first.1
                    || !first.0 ==> has_error)),
            decreases self.limit - self.pos,
        {
            let ghost iteration_start = self.pos;
            let ghost item_end = object_item_end(self.source@, iteration_start as int, self.limit as int);
            self.start_node(SyntaxKind::Object);
            let ghost ev_open = self.events@;
            assert(opens_at(ev_open, n0 + 1, SyntaxKind::Object));
            let object_start = self.pos;
            let object = self.parse_object_like();
            if object.has_value {
                has_object = true;
            }
            if object.has_error {
                has_error = true;
            }
            if !object.has_value {
                if !object.has_error {
                    self.push_empty_error();
                }
                let here = self.pos;
                self.push_diagnostic(
                    DiagnosticCode::ParseError,
                    "Expected object",
                    object_start,
                    if object.has_error {
                        here
                    } else {
                        object_start
                    },
                );
                has_error = true;
            }
            proof {
                lemma_kept_open(ev_open, self.events@, n0 + 1, SyntaxKind::Object);
                first_done = true;
            }
            self.finish_node();
            let ghost ev_closed = self.events@;
            let ghost after_object = self.pos;
            if self.starts_with(&[':', ':']) {
                self.parse_decoration();
                self.consume_statement_trivia(false);
            }
            assert(self.pos == decorated_end(self.source@, after_object as int, self.limit as int));
            let ghost extras_start = self.pos;
            while self.starts_statement_value(false)
                invariant
                    self.advanced_from(old(self), ev0),
                    extends_balanced(ev_closed, self.events@),
                    extras_end(self.source@, self.pos as int, self.limit as int) == extras_end(
                        self.source@,
                        extras_start as int,
                        self.limit as int,
                    ),
                    item_end == object_item_end(self.source@, iteration_start as int, self.limit as int),
                    object_list_end(self.source@, iteration_start as int, self.limit as int) == object_list_end(
                        self.source@,
                        p0 as int,
                        self.limit as int,
                    ),
                    (first_stop ==> has_error) && (!first_stop ==> (first.0 ==> has_object) && (first.1
                        || !first.0 ==> has_error)),
                    iteration_start <= self.pos,
                    old(self).pos == p0,
                    old(self).pos < old(self).limit && old(self).at() == ',' ==> self.pos > p0 || (
                    self.pos == p0 && self.pos < self.limit && self.at() == ','),
                decreases self.limit - self.pos,
            {
                let error_start = self.pos;
                self.start_node(SyntaxKind::Error);
                let parsed_extra_value = self.parse_value();
                if !parsed_extra_value {
                    self.push_empty_error();
                }
                self.finish_node();
                let here = self.pos;
                self.push_diagnostic(
                    DiagnosticCode::ParseError,
                    "Expected comma between object values",
                    error_start,
                    here,
                );
                has_error = true;
                self.consume_statement_trivia(false);
                if self.starts_with(&[':', ':']) {
                    self.parse_decoration();
                    self.consume_statement_trivia(false);
                }
            }
            assert(self.pos == item_end);
            if !self.peek_is(',') {
                proof {
                    lemma_kept_open(ev_closed, self.events@, n0 + 1, SyntaxKind::Object);
                }
                break;
            }
            self.emit(SyntaxKind::Comma, 1);
            self.consume_statement_trivia(false);
            proof {
                lemma_kept_open(ev_closed, self.events@, n0 + 1, SyntaxKind::Object);
            }
        }
        proof {
            lemma_kept_open(ev0, self.events@, n0, SyntaxKind::ObjectList);
        }
        self.finish_node();
        ValueParseState { has_value: has_object, has_error }
    }

    #[verifier::rlimit(60)]
    #[verifier::spinoff_prover]
    fn parse_predicate_chain(&mut self) -> (r: (bool, bool))
        requires
            old(self).inv(),
        ensures
            final(self).advanced(old(self)),
            old(self).pos < old(self).limit && old(self).at() != '\n' && old(self).at() != '.'
                ==> final(self).pos > old(self).pos,
            old(self).pos < old(self).limit && old(self).at() != '\n' && old(self).at() != '.'
                ==> (predicate_outcome(old(self).source@, old(self).pos as int, old(self).limit as int).0
                ==> r.0) && (predicate_outcome(
                old(self).source@,
                old(self).pos as int,
                old(self).limit as int,
            ).1 ==> r.1),
            old(self).pos < old(self).limit && old(self).at() != '\n' && old(self).at() != '.'
                ==> opens_at(final(self).events@, old(self).events@.len() as int, SyntaxKind::Predicate),
            final(self).pos == predicate_chain_end(old(self).source@, old(self).pos as int, old(self).limit as int),
    {
        let mut has_predicate = false;
        let mut has_error = false;
        let ghost p0 = self.pos;
        let ghost first = predicate_outcome(self.source@, self.pos as int, self.limit as int);
        let ghost n0 = self.events@.len() as int;
        while !self.at_statement_end() && !self.peek_is('.')
            invariant_except_break
                predicate_chain_end(self.source@, self.pos as int, self.limit as int) == predicate_chain_end(
                    self.source@,
                    p0 as int,
                    self.limit as int,
                ),
            invariant
                self.advanced(old(self)),
                old(self).pos == p0,
                first == predicate_outcome(old(self).source@, p0 as int, old(self).limit as int),
                self.pos > p0 ==> (first.0 ==> has_predicate) && (first.1 ==> has_error),
                n0 == old(self).events@.len(),
                self.pos == p0 ==> self.events@ == old(self).events@,
                self.pos > p0 ==> opens_at(self.events@, n0, SyntaxKind::Predicate),
            ensures
                self.advanced(old(self)),
                old(self).pos < old(self).limit && old(self).at() != '\n' && old(self).at()
                    != '.' ==> self.pos > old(self).pos,
                old(self).pos < old(self).limit && old(self).at() != '\n' && old(self).at()
                    != '.' ==> (first.0 ==> has_predicate) && (first.1 ==> has_error),
                old(self).pos < old(self).limit && old(self).at() != '\n' && old(self).at()
                    != '.' ==> opens_at(self.events@, n0, SyntaxKind::Predicate),
                self.pos == predicate_chain_end(self.source@, p0 as int, self.limit as int),
            decreases self.limit - self.pos,
        {
            let ghost iteration_start = self.pos;
            let ghost it_ev = self.events@;
            let predicate_start = self.pos;
            self.start_node(SyntaxKind::Predicate);
            let ghost ev_open = self.events@;
            assert(opens_at(ev_open, n0, SyntaxKind::Predicate));
            let predicate = self.parse_predicate_like();
            if predicate.has_value {
                has_predicate = true;
            }
            if predicate.has_error {
                let here = self.pos;
                self.push_diagnostic(
                    DiagnosticCode::ParseError,
                    "Expected predicate",
                    predicate_start,
                    here,
                );
                has_error = true;
            }
            proof {
                lemma_kept_open(ev_open, self.events@, n0, SyntaxKind::Predicate);
            }
            self.finish_node();
            let ghost ev_closed = self.events@;
            self.consume_statement_trivia(false);
            if !self.at_statement_end() && !self.peek_is('.') && !self.peek_is(';')
                && !self.marker_here() {
                let object_state = self.parse_object_list();
                has_error = has_error || object_state.has_error;
                if !object_state.has_value {
                    has_error = true;
                }
            } else {
                self.push_empty_error();
                let here = self.pos;
                self.push_diagnostic(
                    DiagnosticCode::ParseError,
                    "Expected object after predicate",
                    predicate_start,
                    here,
                );
                has_error = true;
            }
            assert(self.pos == chain_step_end(self.source@, iteration_start as int, self.limit as int));
            if self.peek_is(';') {
                let semicolon_start = self.pos;
                self.emit(SyntaxKind::Semicolon, 1);
                self.consume_statement_trivia(true);
                if self.pos >= self.limit || self.peek_is('.') || self.peek_is('\n') {
                    self.push_empty_error();
                    let here = self.pos;
                    self.push_diagnostic(
                        DiagnosticCode::ParseError,
                        "Expected predicate after semicolon continuation",
                        semicolon_start,
                        here,
                    );
                    has_error = true;
                    proof {
                        lemma_kept_open(ev_closed, self.events@, n0, SyntaxKind::Predicate);
                    }
                    break;
                }
                proof {
                    lemma_kept_open(ev_closed, self.events@, n0, SyntaxKind::Predicate);
                }
                continue;
            }
            assert(self.pos > iteration_start || (self.pos == iteration_start && iteration_start
                != p0) || self.pos > p0) by {
                if self.pos == p0 && p0 == iteration_start {
                    assert(self.at() != ',' && self.at() != ';');
                }
            }
            proof {
                lemma_kept_open(ev_closed, self.events@, n0, SyntaxKind::Predicate);
            }
            break;
        }
        (has_predicate, has_error)
    }

    fn parse_semicolon_continuation(&mut self) -> (r: (bool, bool))
        requires
            old(self).inv(),
        ensures
            final(self).advanced(old(self)),
            final(self).pos == continuation_end(old(self).source@, old(self).pos as int, old(self).limit as int),
            !(old(self).pos < old(self).limit && old(self).at() == ';') ==> r == (false, false)
                && *final(self) == *old(self),
            old(self).pos < old(self).limit && old(self).at() == ';' ==> final(self).pos > old(
                self,
            ).pos && (r.0 || r.1),
    {
        let mut state = (false, false);
        if self.peek_is(';') {
            let semicolon_start = self.pos;
            self.emit(SyntaxKind::Semicolon, 1);
            self.consume_statement_trivia(true);
            state = self.parse_predicate_chain();
            if !state.0 && !state.1 {
                self.push_empty_error();
                let here = self.pos;
                self.push_diagnostic(
                    DiagnosticCode::ParseError,
                    "Expected predicate after semicolon continuation",
                    semicolon_start,
                    here,
                );
                state = (false, true);
            }
        }
        state
    }

    fn is_ambient_predicate_start(&self) -> (r: bool)
        requires
            self.frame(),
        ensures
            r == (self.context != RegionContext::Commentaria && self.pos < self.limit && (self.at()
                == '`' || is_lower_spec(self.at()) || self.at() == '=')),
            r ==> self.pos < self.limit && !is_stop(self.at()) && self.at() != '\n',
    {
        if self.context == RegionContext::Commentaria {
            return false;
        }
        self.peek_is('`') || (self.pos < self.limit && (is_lower(self.source[self.pos])
            || self.source[self.pos] == '='))
    }

    #[verifier::rlimit(40)]
    fn parse_statement(&mut self)
        requires
            old(self).inv(),
        ensures
            final(self).advanced(old(self)),
            final(self).pos == statement_end(
                old(self).source@,
                old(self).pos as int,
                old(self).limit as int,
                old(self).context == RegionContext::Commentaria,
            ),
            old(self).pos < old(self).limit ==> final(self).pos > old(self).pos,
            opens_at(final(self).events@, old(self).events@.len() as int, SyntaxKind::Statement),
            old(self).context != RegionContext::Commentaria && occurs_at(
                old(self).source@,
                old(self).pos as int,
                old(self).limit as int,
                seq![':', ':'],
            ) ==> opens_at(final(self).events@, old(self).events@.len() + 1int, SyntaxKind::Decoration),
            !(old(self).context != RegionContext::Commentaria && occurs_at(
                old(self).source@,
                old(self).pos as int,
                old(self).limit as int,
                seq![':', ':'],
            )) && !(old(self).context != RegionContext::Commentaria && old(self).pos < old(self).limit && (
            old(self).at() == '`' || is_lower_spec(old(self).at()) || old(self).at() == '=')) ==> opens_at(
                final(self).events@,
                old(self).events@.len() + 1int,
                SyntaxKind::Subject,
            ),
    {
        let start = self.pos;
        let mut has_subject = false;
        let mut has_decoration = false;
        let mut has_error = false;
        let predicate_state;
        self.start_node(SyntaxKind::Statement);
        let ghost ev1 = self.events@;
        let ghost mut ev2: Seq<TreeEvent> = ev1;
        let ghost mut head: Option<SyntaxKind> = None;
        if self.context != RegionContext::Commentaria && self.starts_with(&[':', ':']) {
            has_decoration = true;
            self.parse_decoration();
            proof {
                ev2 = self.events@;
                head = Some(SyntaxKind::Decoration);
            }
            self.consume_statement_trivia(true);
            predicate_state = self.parse_semicolon_continuation();
        } else if self.is_ambient_predicate_start() {
            predicate_state = self.parse_predicate_chain();
        } else {
            self.start_node(SyntaxKind::Subject);
            let ghost ev_subject = self.events@;
            let subject_start = self.pos;
            let subject_state = self.parse_subject_like();
            if subject_state.has_value {
                has_subject = true;
            }
            if subject_state.has_error {
                has_error = true;
            }
            if !subject_state.has_value && subject_state.has_error {
                let here = self.pos;
                self.push_diagnostic(
                    DiagnosticCode::ParseError,
                    "Expected subject",
                    subject_start,
                    here,
                );
            } else if !subject_state.has_value {
                self.push_empty_error();
                self.push_diagnostic(
                    DiagnosticCode::ParseError,
                    "Expected subject",
                    subject_start,
                    subject_start,
                );
            }
            proof {
                lemma_kept_open(ev_subject, self.events@, old(self).events@.len() + 1int, SyntaxKind::Subject);
            }
            self.finish_node();
            proof {
                ev2 = self.events@;
                head = Some(SyntaxKind::Subject);
            }
            self.consume_statement_trivia(false);
            if self.starts_with(&[':', ':']) {
                has_decoration = true;
                self.parse_decoration();
                self.consume_statement_trivia(true);
                predicate_state = self.parse_semicolon_continuation();
            } else {
                predicate_state = self.parse_predicate_chain();
            }
        }
        has_error = has_error || predicate_state.1;
        if !has_error && !has_decoration && !predicate_state.0 {
            self.push_empty_error();
            let here = self.pos;
            self.push_diagnostic(
                DiagnosticCode::ParseError,
                if has_subject {
                    "Expected predicate after subject"
                } else {
                    "Expected statement content"
                },
                start,
                here,
            );
        }
        if self.marker_here() {
            self.parse_local_subject_marker();
            self.consume_statement_trivia(false);
        }
        let terminated = if self.peek_is('.') {
            self.emit(SyntaxKind::Dot, 1);
            true
        } else {
            false
        };
        proof {
            lemma_kept_open(ev1, self.events@, old(self).events@.len() as int, SyntaxKind::Statement);
            if let Some(kind) = head {
                lemma_kept_open(ev2, self.events@, old(self).events@.len() + 1int, kind);
            }
        }
        self.finish_node();
        if !terminated {
            self.unterminated_statement = Some((start, self.pos));
        }
    }

    /// Parses the whole region.
    fn parse(&mut self)
        requires
            old(self).inv(),
        ensures
            final(self).advanced(old(self)),
            final(self).pos == final(self).limit,
            !old(self).embedded ==> final(self).events@.len() > old(self).events@.len()
                && final(self).events@[old(self).events@.len() as int] == TreeEvent::Start(SyntaxKind::Root),
            !old(self).embedded ==> final(self).events@.last() is Finish && grown(
                old(self).events@.push(TreeEvent::Start(SyntaxKind::Root)),
                final(self).events@.drop_last(),
                0,
            ),
    {
        if !self.embedded {
            self.start_node(SyntaxKind::Root);
        }
        let ghost ev0 = self.events@;
        let ghost open_nodes: int = if old(self).embedded { 0 } else { 1 };
        assert forall|o: Seq<TreeEvent>, d: int| #[trigger] grown(o, old(self).events@, d) implies grown(
            o,
            ev0,
            d + open_nodes,
        ) by {}
        while self.pos < self.limit
            invariant
                self.advanced_from(old(self), ev0),
            decreases self.limit - self.pos,
        {
            if self.starts_with(&['/', '/']) && !self.starts_with(&['/', '/', '/']) {
                self.parse_line_comment();
            } else if self.starts_with(&['/', '*']) {
                self.parse_block_comment();
            } else if self.peek_is('@') {
                self.parse_directive();
            } else if is_ws(self.source[self.pos]) {
                self.parse_whitespace();
            } else {
                self.begin_statement();
                self.parse_statement();
            }
        }
        if self.context == RegionContext::Commentaria {
            self.report_unterminated_statement();
        }
        proof {
            lemma_extends_prefix(ev0, self.events@);
            lemma_grown_refl(ev0);
            if !old(self).embedded {
                let k = old(self).events@.len() as int;
                assert(self.events@.take(ev0.len() as int)[k] == self.events@[k]);
            }
        }
        let ghost inner = self.events@;
        if !self.embedded {
            self.finish_node();
            assert(self.events@.drop_last() =~= inner);
        }
    }
}

/// Parses `lo..hi` of `src` as a SnipX region embedded in an enclosing
/// tree: its events and diagnostics are appended to the given ones.
fn parse_region_into(
    src: &[char],
    offsets: &[usize],
    lo: usize,
    hi: usize,
    context: RegionContext,
    events: Vec<TreeEvent>,
    diagnostics: Vec<Diagnostic>,
    Ghost(origin): Ghost<int>,
) -> (r: (Vec<TreeEvent>, Vec<Diagnostic>))
    requires
        lo <= hi <= src@.len(),
        offsets_of(src@, offsets@),
        tiles(events@, origin, lo as int),
        diagnostics_located(diagnostics@, utf8_len(src@) as int),
    ensures
        tiles(r.0@, origin, hi as int),
        diagnostics_located(r.1@, utf8_len(src@) as int),
        extends_balanced(events@, r.0@),
        warning_spans(r.1@) == warning_spans(diagnostics@),
        block_error_spans(r.1@) == block_error_spans(diagnostics@),
{
    let mut parser = RegionParser {
        source: src,
        offsets,
        base: lo,
        limit: hi,
        context,
        embedded: true,
        pos: lo,
        statement_seen: false,
        unterminated_statement: None,
        events,
        diagnostics,
        origin: Ghost(origin),
    };
    parser.parse();
    (parser.events, parser.diagnostics)
}

/// The outcome of parsing `src`: tokens cover it exactly and every
/// diagnostic is located inside it.
pub open spec fn parsed(src: Seq<char>, events: Seq<TreeEvent>, diagnostics: Seq<Diagnostic>) -> bool {
    &&& tiles(events, 0, src.len() as int)
    &&& diagnostics_located(diagnostics, utf8_len(src) as int)
    &&& events.len() > 0
    &&& events[0] == TreeEvent::Start(SyntaxKind::Root)
    &&& balanced(events)
    &&& root_spans_all(events)
}

fn parse_commentaria(src: &[char], offsets: &[usize]) -> (r: (Vec<TreeEvent>, Vec<Diagnostic>))
    requires
        offsets_of(src@, offsets@),
    ensures
        parsed(src@, r.0@, r.1@),
        warning_spans(r.1@).len() == 0,
        block_error_spans(r.1@).len() == 0,
{
    let mut parser = RegionParser {
        source: src,
        offsets,
        base: 0,
        limit: src.len(),
        context: RegionContext::Commentaria,
        embedded: false,
        pos: 0,
        statement_seen: false,
        unterminated_statement: None,
        events: Vec::new(),
        diagnostics: Vec::new(),
        origin: Ghost(0),
    };
    proof {
        lemma_grown_refl(parser.events@);
    }
    parser.parse();
    proof {
        lemma_grown_empty(parser.events@, 0);
        let ev = parser.events@;
        assert(Seq::<TreeEvent>::empty().push(TreeEvent::Start(SyntaxKind::Root)).len() == 1);
        assert(ev.drop_last().skip(1) =~= ev.subrange(1, ev.len() - 1));
    }
    (parser.events, parser.diagnostics)
}

fn push_event(events: &mut Vec<TreeEvent>, event: TreeEvent, Ghost(origin): Ghost<int>, Ghost(end): Ghost<int>)
    requires
        tiles(old(events)@, origin, end),
        !(event is Token),
    ensures
        tiles(final(events)@, origin, end),
        final(events)@ == old(events)@.push(event),
        forall|o: Seq<TreeEvent>, d: int|
            #[trigger] grown(o, old(events)@, d) && (event is Finish ==> d >= 1) ==> grown(
                o,
                final(events)@,
                nest_step(event, d),
            ),
{
    proof {
        lemma_tiles_push_other(events@, event, origin, end);
        assert forall|o: Seq<TreeEvent>, d: int|
            #[trigger] grown(o, events@, d) && (event is Finish ==> d >= 1) implies grown(
                o,
                events@.push(event),
                nest_step(event, d),
            ) by {
            lemma_grown_push(o, events@, d, event);
        }
    }
    events.push(event);
}

/// Covers `start..end` with a token when the range is not empty.
fn push_token(events: &mut Vec<TreeEvent>, kind: SyntaxKind, start: usize, end: usize, Ghost(origin): Ghost<
    int,
>)
    requires
        tiles(old(events)@, origin, start as int),
        start <= end,
    ensures
        tiles(final(events)@, origin, end as int),
        final(events)@.len() >= old(events)@.len(),
        final(events)@.take(old(events)@.len() as int) == old(events)@,
        extends_balanced(old(events)@, final(events)@),
{
    if end > start {
        proof {
            lemma_tiles_push_token(events@, kind, origin, start, end);
            assert(events@.push(TreeEvent::Token(kind, start, end)).take(events@.len() as int) =~= events@);
            assert forall|o: Seq<TreeEvent>, d: int| #[trigger] grown(o, events@, d) implies grown(
                o,
                events@.push(TreeEvent::Token(kind, start, end)),
                d,
            ) by {
                lemma_grown_push(o, events@, d, TreeEvent::Token(kind, start, end));
            }
        }
        events.push(TreeEvent::Token(kind, start, end));
    }
}

/// The characters `start..end` with surrounding whitespace removed.
fn trimmed(src: &[char], start: usize, end: usize) -> (r: (usize, usize))
    requires
        start <= end <= src@.len(),
    ensures
        start <= r.0 <= r.1 <= end,
{
    let first = skip(src, start, end, CharClass::Ws);
    let mut last = end;
    while last > first && is_ws(src[last - 1])
        invariant
            start <= first <= last <= end <= src@.len(),
        decreases last,
    {
        last = last - 1;
    }
    (first, last)
}

/// Reading marginalia lines from `cursor`: the starts of the fences that
/// are never closed. `///` lines and closed fences are passed over, and
/// so is the text between regions; an unclosed fence runs to the end.
pub open spec fn unclosed_fences(src: Seq<char>, cursor: int) -> Seq<int>
    decreases src.len() - cursor,
{
    let len = src.len() as int;
    if cursor < 0 || cursor >= len {
        Seq::empty()
    } else if line_marker_spec(src, cursor, seq!['/', '/', '/']) is Some {
        proof {
            lemma_skip_bounds(src, cursor, len, CharClass::NotNewline);
        }
        unclosed_fences(src, next_line_start_spec(len, skip_spec(src, cursor, len, CharClass::NotNewline)))
    } else if line_marker_spec(src, cursor, seq!['`', '`', '`']) is Some {
        proof {
            lemma_skip_bounds(src, cursor, len, CharClass::NotNewline);
        }
        let body = next_line_start_spec(len, skip_spec(src, cursor, len, CharClass::NotNewline));
        match closing_fence_scan(src, body) {
            Some((line, _)) => {
                proof {
                    lemma_closing_fence_scan_bounds(src, body);
                    lemma_skip_bounds(src, line, len, CharClass::NotNewline);
                }
                unclosed_fences(src, next_line_start_spec(len, skip_spec(src, line, len, CharClass::NotNewline)))
            },
            None => seq![cursor],
        }
    } else {
        let next = marginalia_scan(src, cursor);
        if next <= cursor || next > len {
            Seq::empty()
        } else {
            unclosed_fences(src, next)
        }
    }
}

/// The spans of the unclosed-fence warnings: each from its fence to the
/// end of the source, in bytes.
pub open spec fn fence_warning_spans(src: Seq<char>, fences: Seq<int>) -> Seq<Option<SourceSpan>> {
    fences.map_values(
        |c: int| Some(SourceSpan { start: utf8_prefix(src, c) as usize, end: utf8_prefix(src, src.len() as int) as usize }),
    )
}

fn parse_marginalia(src: &[char], offsets: &[usize]) -> (r: (Vec<TreeEvent>, Vec<Diagnostic>))
    requires
        offsets_of(src@, offsets@),
    ensures
        parsed(src@, r.0@, r.1@),
        warning_spans(r.1@) == fence_warning_spans(src@, unclosed_fences(src@, 0)),
        block_error_spans(r.1@).len() == 0,
{
    let len = src.len();
    let mut events: Vec<TreeEvent> = Vec::new();
    let mut diagnostics: Vec<Diagnostic> = Vec::new();
    let ghost root = seq![TreeEvent::Start(SyntaxKind::Root)];
    proof {
        lemma_grown_refl(events@);
    }
    push_event(&mut events, TreeEvent::Start(SyntaxKind::Root), Ghost(0), Ghost(0));
    proof {
        lemma_grown_refl(events@);
        assert(events@ =~= root);
    }
    let mut cursor: usize = 0;
    while cursor < len
        invariant
            len == src@.len(),
            cursor <= len,
            offsets_of(src@, offsets@),
            tiles(events@, 0, cursor as int),
            diagnostics_located(diagnostics@, utf8_len(src@) as int),
            events@.len() > 0,
            root == seq![TreeEvent::Start(SyntaxKind::Root)],
            grown(Seq::empty(), events@, 1),
            grown(root, events@, 0),
            warning_spans(diagnostics@) + fence_warning_spans(src@, unclosed_fences(src@, cursor as int))
                == fence_warning_spans(src@, unclosed_fences(src@, 0)),
            block_error_spans(diagnostics@).len() == 0,
        decreases len - cursor,
    {
        if let Some(marker_start) = marginalia_slash_marker(src, cursor) {
            let line_end = find_line_end(src, cursor, len);
            let content_end = line_content_end(src, 0, len, line_end);
            let next_line = next_line_start(len, line_end);
            proof {
                lemma_skip_bounds(src@, cursor as int, len as int, CharClass::NotNewline);
            }
            push_event(&mut events, TreeEvent::Start(SyntaxKind::LineComment), Ghost(0), Ghost(cursor as int));
            push_token(&mut events, SyntaxKind::Whitespace, cursor, marker_start, Ghost(0));
            push_token(&mut events, SyntaxKind::SlashSlashSlash, marker_start, marker_start + 3, Ghost(0));
            let tail_start = marker_start + 3;
            let ws_end = skip(src, tail_start, content_end, CharClass::Ws);
            push_token(&mut events, SyntaxKind::Whitespace, tail_start, ws_end, Ghost(0));
            if ws_end < content_end {
                let (e, d) = parse_region_into(
                    src,
                    offsets,
                    ws_end,
                    content_end,
                    RegionContext::Marginalia,
                    events,
                    diagnostics,
                    Ghost(0),
                );
                events = e;
                diagnostics = d;
            }
            push_event(&mut events, TreeEvent::Finish, Ghost(0), Ghost(content_end as int));
            push_token(&mut events, SyntaxKind::Whitespace, content_end, next_line, Ghost(0));
            cursor = next_line;
            continue;
        }
        if let Some(opening_marker) = marginalia_fence_marker(src, cursor) {
            let ghost c0 = cursor as int;
            let ghost goal = fence_warning_spans(src@, unclosed_fences(src@, 0));
            let opening_end = find_line_end(src, cursor, len);
            let opening_content_end = line_content_end(src, 0, len, opening_end);
            let body_start = next_line_start(len, opening_end);
            let (info_start, info_end) = trimmed(src, opening_marker + 3, opening_content_end);
            let closing_fence = find_closing_fence(src, body_start);
            push_event(&mut events, TreeEvent::Start(SyntaxKind::Fence), Ghost(0), Ghost(cursor as int));
            push_token(&mut events, SyntaxKind::Whitespace, cursor, opening_marker, Ghost(0));
            push_token(&mut events, SyntaxKind::Backtick, opening_marker, opening_marker + 3, Ghost(0));
            push_token(
                &mut events,
                SyntaxKind::FenceInfo,
                opening_marker + 3,
                opening_content_end,
                Ghost(0),
            );
            push_token(&mut events, SyntaxKind::Whitespace, opening_content_end, body_start, Ghost(0));
            let body_end = match closing_fence {
                Some((closing_line_start, _)) => closing_line_start,
                None => len,
            };
            let is_snipx = info_start == info_end || (info_end - info_start == 5 && starts_with_at(
                src,
                info_start,
                info_end,
                &['s', 'n', 'i', 'p', 'x'],
            ));
            if is_snipx {
                let (e, d) = parse_region_into(
                    src,
                    offsets,
                    body_start,
                    body_end,
                    RegionContext::Marginalia,
                    events,
                    diagnostics,
                    Ghost(0),
                );
                events = e;
                diagnostics = d;
            } else {
                push_token(&mut events, SyntaxKind::FenceBody, body_start, body_end, Ghost(0));
            }
            match closing_fence {
                Some((closing_line_start, closing_marker)) => {
                    push_token(
                        &mut events,
                        SyntaxKind::Whitespace,
                        closing_line_start,
                        closing_marker,
                        Ghost(0),
                    );
                    push_token(
                        &mut events,
                        SyntaxKind::Backtick,
                        closing_marker,
                        closing_marker + 3,
                        Ghost(0),
                    );
                    let closing_end = find_line_end(src, closing_line_start, len);
                    let closing_content_end = line_content_end(src, 0, len, closing_end);
                    push_token(
                        &mut events,
                        SyntaxKind::FenceInfo,
                        closing_marker + 3,
                        closing_content_end,
                        Ghost(0),
                    );
                    let next_line = next_line_start(len, closing_end);
                    push_token(
                        &mut events,
                        SyntaxKind::Whitespace,
                        closing_content_end,
                        next_line,
                        Ghost(0),
                    );
                    cursor = next_line;
                },
                None => {
                    let d = located_diagnostic(
                        DiagnosticCode::ParseError,
                        Severity::Warning,
                        "Unterminated fence",
                        src,
                        offsets,
                        cursor,
                        len,
                    );
                    proof {
                        lemma_push_located(diagnostics@, d, utf8_len(src@) as int);
                    }
                    let ghost before = diagnostics@;
                    diagnostics.push(d);
                    proof {
                        assert(diagnostics@.drop_last() =~= before);
                        assert(block_error_spans(diagnostics@) =~= block_error_spans(before));
                        assert(unclosed_fences(src@, c0) == seq![c0]);
                        assert(fence_warning_spans(src@, seq![c0]) =~= seq![d.span]);
                        assert(unclosed_fences(src@, len as int) =~= Seq::<int>::empty());
                        assert(fence_warning_spans(src@, Seq::<int>::empty()) =~= Seq::<Option<SourceSpan>>::empty());
                        assert(warning_spans(diagnostics@) + fence_warning_spans(src@, unclosed_fences(src@, len as int))
                            =~= warning_spans(before) + fence_warning_spans(src@, unclosed_fences(src@, c0)));
                    }
                    cursor = len;
                },
            }
            push_event(&mut events, TreeEvent::Finish, Ghost(0), Ghost(cursor as int));
            continue;
        }
        let next_special = find_next_marginalia_region(src, cursor);
        push_token(&mut events, SyntaxKind::MarginaliaText, cursor, next_special, Ghost(0));
        cursor = next_special;
    }
    let ghost before = events@;
    push_event(&mut events, TreeEvent::Finish, Ghost(0), Ghost(len as int));
    proof {
        lemma_grown_empty(events@, 0);
        assert(before.take(1)[0] == events@[0]);
        assert(events@.drop_last() =~= before);
        assert(before.skip(1) =~= events@.subrange(1, events@.len() - 1));
    }
    (events, diagnostics)
}

fn parse_intralinea(src: &[char], offsets: &[usize]) -> (r: (Vec<TreeEvent>, Vec<Diagnostic>))
    requires
        offsets_of(src@, offsets@),
    ensures
        parsed(src@, r.0@, r.1@),
        warning_spans(r.1@).len() == 0,
        block_error_spans(r.1@) == block_error(src@, unclosed_block(src@, 0)),
{
    let len = src.len();
    let mut events: Vec<TreeEvent> = Vec::new();
    let mut diagnostics: Vec<Diagnostic> = Vec::new();
    let ghost root = seq![TreeEvent::Start(SyntaxKind::Root)];
    proof {
        lemma_grown_refl(events@);
    }
    push_event(&mut events, TreeEvent::Start(SyntaxKind::Root), Ghost(0), Ghost(0));
    proof {
        lemma_grown_refl(events@);
        assert(events@ =~= root);
    }
    let mut cursor: usize = 0;
    while cursor < len
        invariant
            len == src@.len(),
            cursor <= len,
            offsets_of(src@, offsets@),
            tiles(events@, 0, cursor as int),
            diagnostics_located(diagnostics@, utf8_len(src@) as int),
            events@.len() > 0,
            root == seq![TreeEvent::Start(SyntaxKind::Root)],
            grown(Seq::empty(), events@, 1),
            grown(root, events@, 0),
            warning_spans(diagnostics@).len() == 0,
            block_error_spans(diagnostics@) + block_error(src@, unclosed_block(src@, cursor as int)) == block_error(
                src@,
                unclosed_block(src@, 0),
            ),
        decreases len - cursor,
    {
        assert(['{', '{']@ =~= seq!['{', '{']);
        let ghost c0 = cursor as int;
        match find(src, cursor, len, &['{', '{']) {
            Some(start) => {
                push_token(&mut events, SyntaxKind::IntralineaText, cursor, start, Ghost(0));
                push_event(&mut events, TreeEvent::Start(SyntaxKind::IntralineaBlock), Ghost(0), Ghost(start as int));
                push_token(&mut events, SyntaxKind::LBrace, start, start + 1, Ghost(0));
                push_token(&mut events, SyntaxKind::LBrace, start + 1, start + 2, Ghost(0));
                let body_start = start + 2;
                match find_intralinea_close(src, body_start) {
                    Some(body_end) => {
                        let (e, d) = parse_region_into(
                            src,
                            offsets,
                            body_start,
                            body_end,
                            RegionContext::Intralinea,
                            events,
                            diagnostics,
                            Ghost(0),
                        );
                        events = e;
                        diagnostics = d;
                        push_token(&mut events, SyntaxKind::RBrace, body_end, body_end + 1, Ghost(0));
                        push_token(&mut events, SyntaxKind::RBrace, body_end + 1, body_end + 2, Ghost(0));
                        push_event(&mut events, TreeEvent::Finish, Ghost(0), Ghost(body_end + 2));
                        cursor = body_end + 2;
                    },
                    None => {
                        let (e, d) = parse_region_into(
                            src,
                            offsets,
                            body_start,
                            len,
                            RegionContext::Intralinea,
                            events,
                            diagnostics,
                            Ghost(0),
                        );
                        events = e;
                        diagnostics = d;
                        let diagnostic = located_diagnostic(
                            DiagnosticCode::UnterminatedIntralineaBlock,
                            Severity::Error,
                            "Unterminated intralinea block",
                            src,
                            offsets,
                            start,
                            len,
                        );
                        proof {
                            lemma_push_located(diagnostics@, diagnostic, utf8_len(src@) as int);
                        }
                        let ghost before = diagnostics@;
                        diagnostics.push(diagnostic);
                        assert(diagnostics@.drop_last() =~= before);
                        assert(unclosed_block(src@, c0) == Some(start as int));
                        assert(block_error_spans(diagnostics@) =~= block_error_spans(before) + block_error(src@, Some(start as int)));
                        assert(unclosed_block(src@, len as int) is None);
                        push_event(&mut events, TreeEvent::Finish, Ghost(0), Ghost(len as int));
                        cursor = len;
                    },
                }
            },
            None => {
                push_token(&mut events, SyntaxKind::IntralineaText, cursor, len, Ghost(0));
                cursor = len;
            },
        }
    }
    let ghost before = events@;
    push_event(&mut events, TreeEvent::Finish, Ghost(0), Ghost(len as int));
    proof {
        lemma_grown_empty(events@, 0);
        assert(before.take(1)[0] == events@[0]);
        assert(events@.drop_last() =~= before);
        assert(before.skip(1) =~= events@.subrange(1, events@.len() - 1));
    }
    (events, diagnostics)
}

/// The result of parsing SnipX source: a lossless syntax tree, which opens
/// with a `Root` node and closes every node it opens, and the diagnostics
/// found on the way.
#[derive(Debug)]
pub struct Parse {
    pub tree: SyntaxTree,
    pub diagnostics: Vec<Diagnostic>,
}

impl Parse {
    pub open spec fn wf(&self) -> bool {
        &&& self.tree.wf()
        &&& self.tree.events@.len() > 0
        &&& self.tree.events@[0] == TreeEvent::Start(SyntaxKind::Root)
        &&& balanced(self.tree.events@)
        &&& root_spans_all(self.tree.events@)
        &&& diagnostics_located(self.diagnostics@, utf8_len(self.tree.source@) as int)
    }

    /// The root node of the tree.
    pub fn syntax(&self) -> (r: SyntaxNode<'_>)
        requires
            self.wf(),
        ensures
            r.valid(),
            r.tree == &self.tree,
            r.index == 0,
    {
        SyntaxNode { tree: &self.tree, index: 0 }
    }

    pub fn diagnostics(&self) -> (r: &[Diagnostic])
        ensures
            r@ == self.diagnostics@,
    {
        self.diagnostics.as_slice()
    }

    /// An indented listing of the tree: one line per node with its kind,
    /// one per token with its kind and quoted text.
    pub fn debug_tree(&self) -> (r: String)
        requires
            self.wf(),
        ensures
            r@ == debug_text(self.tree.source@, self.tree.events@, self.tree.events@.len() as int),
    {
        let events = &self.tree.events;
        let mut out = String::new();
        let mut depth: usize = 0;
        let mut k: usize = 0;
        while k < events.len()
            invariant
                self.wf(),
                events == &self.tree.events,
                k <= events@.len(),
                depth == depth_upto(events@, k as int),
                depth <= k,
                out@ == debug_text(self.tree.source@, events@, k as int),
            decreases events@.len() - k,
        {
            let line = event_line(&self.tree.source, events[k], depth);
            out.append(line.as_str());
            match events[k] {
                TreeEvent::Start(_) => {
                    depth = depth + 1;
                },
                TreeEvent::Finish => {
                    if depth > 0 {
                        depth = depth - 1;
                    }
                },
                TreeEvent::Token(_, _, _) => {},
            }
            k = k + 1;
        }
        out
    }
}

/// Nesting depth reached after the first `k` events.
pub open spec fn depth_upto(events: Seq<TreeEvent>, k: int) -> nat
    decreases k,
{
    if k <= 0 {
        0
    } else {
        let d = depth_upto(events, k - 1);
        match events[k - 1] {
            TreeEvent::Start(_) => d + 1,
            TreeEvent::Finish => if d > 0 {
                (d - 1) as nat
            } else {
                0
            },
            TreeEvent::Token(_, _, _) => d,
        }
    }
}

pub open spec fn indent_spec(depth: nat) -> Seq<char>
    decreases depth,
{
    if depth == 0 {
        Seq::empty()
    } else {
        indent_spec((depth - 1) as nat) + seq![' ', ' ']
    }
}

/// The debug listing line of one event at nesting depth `depth`.
pub open spec fn event_line_spec(src: Seq<char>, event: TreeEvent, depth: nat) -> Seq<char> {
    match event {
        TreeEvent::Start(kind) => indent_spec(depth) + kind_name(kind) + seq!['\n'],
        TreeEvent::Token(kind, s, e) => indent_spec(depth) + kind_name(kind) + seq![' '] + debug_quoted(
            src.subrange(s as int, e as int),
        ) + seq!['\n'],
        TreeEvent::Finish => Seq::empty(),
    }
}

pub open spec fn debug_text(src: Seq<char>, events: Seq<TreeEvent>, k: int) -> Seq<char>
    decreases k,
{
    if k <= 0 {
        Seq::empty()
    } else {
        debug_text(src, events, k - 1) + event_line_spec(src, events[k - 1], depth_upto(events, k - 1))
    }
}

/// How `{:?}` writes a string: quoted, with special characters escaped.
pub uninterp spec fn debug_quoted(text: Seq<char>) -> Seq<char>;

/// Formats `text` as Rust's `Debug` formats a `str`: quoted and escaped.
#[verifier::external_body]
fn debug_str(text: &str) -> (r: String)
    ensures
        r@ == debug_quoted(text@),
{
    format!("{:?}", text)
}

fn event_line(src: &Vec<char>, event: TreeEvent, depth: usize) -> (r: String)
    requires
        event matches TreeEvent::Token(_, s, e) ==> s <= e <= src@.len(),
    ensures
        r@ == event_line_spec(src@, event, depth as nat),
{
    let mut line = String::new();
    if let TreeEvent::Finish = event {
        return line;
    }
    let mut level: usize = 0;
    while level < depth
        invariant
            level <= depth,
            line@ == indent_spec(level as nat),
        decreases depth - level,
    {
        proof {
            reveal_strlit("  ");
            assert("  "@ =~= seq![' ', ' ']);
        }
        line.append("  ");
        level = level + 1;
    }
    proof {
        reveal_strlit("\n");
        reveal_strlit(" ");
        assert("\n"@ =~= seq!['\n']);
        assert(" "@ =~= seq![' ']);
    }
    match event {
        TreeEvent::Start(kind) => {
            let name = kind.debug_name();
            line.append(name.as_str());
            line.append("\n");
            assert(line@ =~= event_line_spec(src@, event, depth as nat));
        },
        TreeEvent::Token(kind, s, e) => {
            let name = kind.debug_name();
            line.append(name.as_str());
            line.append(" ");
            let text = string_of_range(src.as_slice(), s, e);
            let quoted = debug_str(text.as_str());
            line.append(quoted.as_str());
            line.append("\n");
            assert(line@ =~= event_line_spec(src@, event, depth as nat));
        },
        TreeEvent::Finish => {},
    }
    line
}

/// What `parse` states of the parse `r` of `source` in `input_form`: the
/// tree is lossless (its tokens spell the source exactly, in order, and
/// the root spans all of it); the only warnings are those of marginalia
/// fences that are never closed; an unterminated-block error comes exactly
/// for the first intralinea block that is never closed.
pub open spec fn parsed_from(source: Seq<char>, input_form: InputForm, r: Parse) -> bool {
    &&& r.wf()
    &&& r.tree.source@ == source
    &&& tokens_text(r.tree.source@, r.tree.events@) == source
    &&& node_range_spec(&r.tree, 0) == (0int, source.len() as int)
    &&& input_form == InputForm::Marginalia ==> warning_spans(r.diagnostics@) == fence_warning_spans(
        source,
        unclosed_fences(source, 0),
    )
    &&& input_form != InputForm::Marginalia ==> warning_spans(r.diagnostics@).len() == 0
    &&& input_form == InputForm::Intralinea ==> block_error_spans(r.diagnostics@) == block_error(
        source,
        unclosed_block(source, 0),
    )
    &&& input_form != InputForm::Intralinea ==> block_error_spans(r.diagnostics@).len() == 0
}

/// Parses SnipX source in the given input form, losslessly; see
/// `parsed_from` for what is stated of the result.
pub fn parse(source: &str, options: ParseOptions) -> (r: Parse)
    ensures
        parsed_from(source@, options.input_form, r),
{
    let chars = chars_of(source);
    let offsets = byte_offsets(chars.as_slice());
    let (events, diagnostics) = match options.input_form {
        InputForm::Commentaria => parse_commentaria(chars.as_slice(), offsets.as_slice()),
        InputForm::Marginalia => parse_marginalia(chars.as_slice(), offsets.as_slice()),
        InputForm::Intralinea => parse_intralinea(chars.as_slice(), offsets.as_slice()),
    };
    proof {
        lemma_tiles_text(chars@, events@, 0, chars@.len() as int);
        assert(chars@.subrange(0, chars@.len() as int) =~= chars@);
    }
    let tree = build_tree(chars, offsets, events);
    proof {
        let ev = tree.events@;
        lemma_root_end(ev);
        lemma_tiles_end(ev, 0, tree.source@.len() as int);
        assert(ev.take(0) =~= Seq::<TreeEvent>::empty());
        assert(ev.take(ev.len() as int) =~= ev);
        assert(tree.positions@[0] == 0);
        assert(tree.positions@[ev.len() as int] == tree.source@.len());
    }
    Parse { tree, diagnostics }
}

} // verus!
