//! Scanning primitives over character buffers: runs of a character
//! class, pattern search, line structure and SnipX marker detection.
use vstd::prelude::*;
use crate::text::{is_alpha, is_alpha_spec, is_digit, is_digit_spec, is_ws, is_ws_spec, occurs_at, starts_with_at};

verus! {

/// The character classes that the scanners skip over.
#[derive(Debug, Clone, Copy, PartialEq, Eq, Structural)]
pub enum CharClass {
    Ws,
    InlineWs,
    IdentContinue,
    Digit,
    Angle,
    NotNewline,
    CloseBrace,
}

pub open spec fn is_identifier_start_spec(c: char) -> bool {
    is_alpha_spec(c) || c == '_'
}

pub open spec fn is_identifier_continue_spec(c: char) -> bool {
    is_alpha_spec(c) || is_digit_spec(c) || c == '_' || c == '-' || c == '/'
}

pub fn is_identifier_start(c: char) -> (r: bool)
    ensures
        r == is_identifier_start_spec(c),
{
    is_alpha(c) || c == '_'
}

pub fn is_identifier_continue(c: char) -> (r: bool)
    ensures
        r == is_identifier_continue_spec(c),
{
    is_alpha(c) || is_digit(c) || c == '_' || c == '-' || c == '/'
}

pub open spec fn in_class(c: char, class: CharClass) -> bool {
    match class {
        CharClass::Ws => is_ws_spec(c),
        CharClass::InlineWs => is_ws_spec(c) && c != '\n',
        CharClass::IdentContinue => is_identifier_continue_spec(c),
        CharClass::Digit => is_digit_spec(c),
        CharClass::Angle => c == '<' || c == '>',
        CharClass::NotNewline => c != '\n',
        CharClass::CloseBrace => c == '}',
    }
}

pub fn in_class_exec(c: char, class: CharClass) -> (r: bool)
    ensures
        r == in_class(c, class),
{
    match class {
        CharClass::Ws => is_ws(c),
        CharClass::InlineWs => is_ws(c) && c != '\n',
        CharClass::IdentContinue => is_identifier_continue(c),
        CharClass::Digit => is_digit(c),
        CharClass::Angle => c == '<' || c == '>',
        CharClass::NotNewline => c != '\n',
        CharClass::CloseBrace => c == '}',
    }
}

/// The end of the run of `class` characters that starts at `from`,
/// stopping at `hi`.
pub open spec fn skip_spec(src: Seq<char>, from: int, hi: int, class: CharClass) -> int
    decreases hi - from,
{
    if from >= hi {
        from
    } else if in_class(src[from], class) {
        skip_spec(src, from + 1, hi, class)
    } else {
        from
    }
}

pub proof fn lemma_skip_bounds(src: Seq<char>, from: int, hi: int, class: CharClass)
    requires
        from <= hi,
    ensures
        from <= skip_spec(src, from, hi, class) <= hi,
        skip_spec(src, from, hi, class) < hi ==> !in_class(
            src[skip_spec(src, from, hi, class)],
            class,
        ),
        forall|k: int| from <= k < skip_spec(src, from, hi, class) ==> in_class(src[k], class),
    decreases hi - from,
{
    if from < hi && in_class(src[from], class) {
        lemma_skip_bounds(src, from + 1, hi, class);
    }
}

/// Skips the run of `class` characters starting at `from`.
pub fn skip(src: &[char], from: usize, hi: usize, class: CharClass) -> (r: usize)
    requires
        from <= hi <= src@.len(),
    ensures
        r == skip_spec(src@, from as int, hi as int, class),
        from <= r <= hi,
{
    proof {
        lemma_skip_bounds(src@, from as int, hi as int, class);
    }
    let mut i = from;
    while i < hi && in_class_exec(src[i], class)
        invariant
            from <= i <= hi <= src@.len(),
            skip_spec(src@, from as int, hi as int, class) == skip_spec(
                src@,
                i as int,
                hi as int,
                class,
            ),
        decreases hi - i,
    {
        i = i + 1;
    }
    i
}

/// Whether a comment (`//` or `/*`) opens at `i`.
pub open spec fn comment_opens_at(src: Seq<char>, i: int, hi: int) -> bool {
    0 <= i && i + 1 < hi && src[i] == '/' && (src[i + 1] == '/' || src[i + 1] == '*')
}

/// The end of the identifier-like word that starts at `from`: a run of
/// identifier characters that stops before a comment opener.
pub open spec fn word_end_spec(src: Seq<char>, from: int, hi: int) -> int
    decreases hi - from,
{
    if from >= hi {
        from
    } else if in_class(src[from], CharClass::IdentContinue) && !comment_opens_at(src, from, hi) {
        word_end_spec(src, from + 1, hi)
    } else {
        from
    }
}

pub proof fn lemma_word_bounds(src: Seq<char>, from: int, hi: int)
    requires
        from <= hi,
    ensures
        from <= word_end_spec(src, from, hi) <= hi,
        forall|k: int| from <= k < word_end_spec(src, from, hi) ==> in_class(src[k], CharClass::IdentContinue),
        from < hi && in_class(src[from], CharClass::IdentContinue) && src[from] != '/' ==> word_end_spec(
            src,
            from,
            hi,
        ) > from,
    decreases hi - from,
{
    if from < hi && in_class(src[from], CharClass::IdentContinue) && !comment_opens_at(src, from, hi) {
        lemma_word_bounds(src, from + 1, hi);
    }
}

/// The end of the identifier-like word that starts at `from`.
pub fn word_end(src: &[char], from: usize, hi: usize) -> (r: usize)
    requires
        from <= hi <= src@.len(),
    ensures
        r == word_end_spec(src@, from as int, hi as int),
        from <= r <= hi,
{
    proof {
        lemma_word_bounds(src@, from as int, hi as int);
    }
    let mut i = from;
    while i < hi && in_class_exec(src[i], CharClass::IdentContinue) && !(src[i] == '/' && i + 1 < hi
        && (src[i + 1] == '/' || src[i + 1] == '*'))
        invariant
            from <= i <= hi <= src@.len(),
            word_end_spec(src@, from as int, hi as int) == word_end_spec(src@, i as int, hi as int),
        decreases hi - i,
    {
        i = i + 1;
    }
    i
}

/// The first position at or after `from` where `pattern` occurs
/// entirely before `hi`.
pub open spec fn find_spec(src: Seq<char>, from: int, hi: int, pattern: Seq<char>) -> Option<int>
    decreases hi + 1 - from,
{
    if from < 0 || from + pattern.len() > hi || hi > src.len() {
        None
    } else if occurs_at(src, from, hi, pattern) {
        Some(from)
    } else {
        find_spec(src, from + 1, hi, pattern)
    }
}

pub proof fn lemma_find_bounds(src: Seq<char>, from: int, hi: int, pattern: Seq<char>)
    ensures
        find_spec(src, from, hi, pattern) matches Some(i) ==> from <= i && i + pattern.len()
            <= hi && occurs_at(src, i, hi, pattern),
    decreases hi + 1 - from,
{
    if !(from < 0 || from + pattern.len() > hi || hi > src.len()) && !occurs_at(
        src,
        from,
        hi,
        pattern,
    ) {
        lemma_find_bounds(src, from + 1, hi, pattern);
    }
}

/// Finds the first occurrence of `pattern` in `from..hi`.
pub fn find(src: &[char], from: usize, hi: usize, pattern: &[char]) -> (r: Option<usize>)
    requires
        from <= hi <= src@.len(),
    ensures
        r matches Some(i) ==> Some(i as int) == find_spec(src@, from as int, hi as int, pattern@),
        r is None ==> find_spec(src@, from as int, hi as int, pattern@) is None,
        r matches Some(i) ==> from <= i && i + pattern@.len() <= hi,
{
    proof {
        lemma_find_bounds(src@, from as int, hi as int, pattern@);
    }
    if pattern.len() == 0 {
        assert(src@.subrange(from as int, from as int) =~= pattern@);
        return Some(from);
    }
    let mut i = from;
    while i <= hi && pattern.len() <= hi - i
        invariant
            from <= i,
            pattern@.len() > 0,
            hi <= src@.len(),
            find_spec(src@, from as int, hi as int, pattern@) == find_spec(
                src@,
                i as int,
                hi as int,
                pattern@,
            ),
        decreases hi + 1 - i,
    {
        if starts_with_at(src, i, hi, pattern) {
            return Some(i);
        }
        i = i + 1;
    }
    None
}

/// The index of the first `\n` at or after `from`, or `hi`.
pub fn find_line_end(src: &[char], from: usize, hi: usize) -> (r: usize)
    requires
        from <= hi <= src@.len(),
    ensures
        r == skip_spec(src@, from as int, hi as int, CharClass::NotNewline),
        from <= r <= hi,
{
    skip(src, from, hi, CharClass::NotNewline)
}

pub open spec fn line_content_end_spec(src: Seq<char>, lo: int, hi: int, line_end: int) -> int {
    if line_end < hi && line_end > lo && src[line_end - 1] == '\r' {
        line_end - 1
    } else {
        line_end
    }
}

/// The end of a line's content: before a `\r` that precedes its `\n`.
pub fn line_content_end(src: &[char], lo: usize, hi: usize, line_end: usize) -> (r: usize)
    requires
        lo <= line_end <= hi <= src@.len(),
    ensures
        r == line_content_end_spec(src@, lo as int, hi as int, line_end as int),
        lo <= r <= line_end,
{
    if line_end < hi && line_end > lo && src[line_end - 1] == '\r' {
        line_end - 1
    } else {
        line_end
    }
}

pub open spec fn next_line_start_spec(hi: int, line_end: int) -> int {
    if line_end < hi {
        line_end + 1
    } else {
        line_end
    }
}

pub fn next_line_start(hi: usize, line_end: usize) -> (r: usize)
    requires
        line_end <= hi,
    ensures
        r == next_line_start_spec(hi as int, line_end as int),
        line_end <= r <= hi,
{
    if line_end < hi {
        line_end + 1
    } else {
        line_end
    }
}

pub open spec fn is_line_start_spec(src: Seq<char>, lo: int, pos: int) -> bool {
    pos == lo || (pos > lo && src[pos - 1] == '\n')
}

pub fn is_line_start(src: &[char], lo: usize, pos: usize) -> (r: bool)
    requires
        lo <= pos <= src@.len(),
    ensures
        r == is_line_start_spec(src@, lo as int, pos as int),
{
    pos == lo || src[pos - 1] == '\n'
}

/// Position of a line's first non-whitespace character when that
/// character begins `marker`.
pub open spec fn line_marker_spec(src: Seq<char>, line_start: int, marker: Seq<char>) -> Option<
    int,
> {
    if !is_line_start_spec(src, 0, line_start) {
        None
    } else {
        let line_end = skip_spec(src, line_start, src.len() as int, CharClass::NotNewline);
        let content_end = line_content_end_spec(src, 0, src.len() as int, line_end);
        let marker_start = skip_spec(src, line_start, content_end, CharClass::Ws);
        if occurs_at(src, marker_start, content_end, marker) {
            Some(marker_start)
        } else {
            None
        }
    }
}

pub fn line_marker(src: &[char], line_start: usize, marker: &[char]) -> (r: Option<usize>)
    requires
        line_start <= src@.len(),
    ensures
        r matches Some(m) ==> Some(m as int) == line_marker_spec(src@, line_start as int, marker@),
        r is None ==> line_marker_spec(src@, line_start as int, marker@) is None,
        r matches Some(m) ==> line_start <= m && m + marker@.len() <= src@.len(),
{
    if !is_line_start(src, 0, line_start) {
        return None;
    }
    let line_end = find_line_end(src, line_start, src.len());
    let content_end = line_content_end(src, 0, src.len(), line_end);
    if content_end < line_start {
        return None;
    }
    let marker_start = skip(src, line_start, content_end, CharClass::Ws);
    if starts_with_at(src, marker_start, content_end, marker) {
        Some(marker_start)
    } else {
        None
    }
}

/// A marginalia `///` line marker at `line_start`.
pub fn marginalia_slash_marker(src: &[char], line_start: usize) -> (r: Option<usize>)
    requires
        line_start <= src@.len(),
    ensures
        r matches Some(m) ==> Some(m as int) == line_marker_spec(
            src@,
            line_start as int,
            seq!['/', '/', '/'],
        ),
        r is None ==> line_marker_spec(src@, line_start as int, seq!['/', '/', '/']) is None,
        r matches Some(m) ==> line_start <= m && m + 3 <= src@.len(),
{
    let r = line_marker(src, line_start, &['/', '/', '/']);
    proof {
        assert(['/', '/', '/']@ =~= seq!['/', '/', '/']);
    }
    r
}

/// A marginalia code fence marker at `line_start`.
pub fn marginalia_fence_marker(src: &[char], line_start: usize) -> (r: Option<usize>)
    requires
        line_start <= src@.len(),
    ensures
        r matches Some(m) ==> Some(m as int) == line_marker_spec(
            src@,
            line_start as int,
            seq!['`', '`', '`'],
        ),
        r is None ==> line_marker_spec(src@, line_start as int, seq!['`', '`', '`']) is None,
        r matches Some(m) ==> line_start <= m && m + 3 <= src@.len(),
{
    let r = line_marker(src, line_start, &['`', '`', '`']);
    proof {
        assert(['`', '`', '`']@ =~= seq!['`', '`', '`']);
    }
    r
}

/// The start of the line after the one that starts at `cursor`, or
/// `None` when that line runs to the end of the source.
pub open spec fn following_line(src: Seq<char>, cursor: int) -> Option<int> {
    let line_end = skip_spec(src, cursor, src.len() as int, CharClass::NotNewline);
    let next = next_line_start_spec(src.len() as int, line_end);
    if next == line_end {
        None
    } else {
        Some(next)
    }
}

/// The line after `cursor` starts past it.
pub proof fn lemma_following_line(src: Seq<char>, cursor: int)
    requires
        0 <= cursor <= src.len(),
    ensures
        following_line(src, cursor) matches Some(next) ==> cursor < next <= src.len(),
{
    lemma_skip_bounds(src, cursor, src.len() as int, CharClass::NotNewline);
}

/// Reading lines from `cursor`: the first one that holds a closing fence,
/// with the position of its marker.
pub open spec fn closing_fence_scan(src: Seq<char>, cursor: int) -> Option<(int, int)>
    decreases src.len() - cursor,
{
    if cursor < 0 || cursor >= src.len() {
        None
    } else if line_marker_spec(src, cursor, seq!['`', '`', '`']) is Some {
        Some((cursor, line_marker_spec(src, cursor, seq!['`', '`', '`'])->0))
    } else {
        proof {
            lemma_following_line(src, cursor);
        }
        match following_line(src, cursor) {
            Some(next) => closing_fence_scan(src, next),
            None => None,
        }
    }
}

/// A closing fence found from `cursor` lies on a line at or after it.
pub proof fn lemma_closing_fence_scan_bounds(src: Seq<char>, cursor: int)
    requires
        0 <= cursor,
    ensures
        closing_fence_scan(src, cursor) matches Some((line, _)) ==> cursor <= line < src.len(),
    decreases src.len() - cursor,
{
    if 0 <= cursor < src.len() && !(line_marker_spec(src, cursor, seq!['`', '`', '`']) is Some) {
        lemma_following_line(src, cursor);
        if let Some(next) = following_line(src, cursor) {
            lemma_closing_fence_scan_bounds(src, next);
        }
    }
}

/// The first line at or after `from` that holds a closing fence, with
/// the position of its marker.
pub fn find_closing_fence(src: &[char], from: usize) -> (r: Option<(usize, usize)>)
    requires
        from <= src@.len(),
    ensures
        match r {
            Some((line, marker)) => closing_fence_scan(src@, from as int) == Some((line as int, marker as int)),
            None => closing_fence_scan(src@, from as int) is None,
        },
        r matches Some((line, marker)) ==> from <= line <= marker && marker + 3 <= src@.len()
            && Some(marker as int) == line_marker_spec(src@, line as int, seq!['`', '`', '`']),
{
    let mut cursor = from;
    while cursor < src.len()
        invariant
            from <= cursor <= src@.len(),
            closing_fence_scan(src@, from as int) == closing_fence_scan(src@, cursor as int),
        decreases src@.len() - cursor,
    {
        if let Some(marker_start) = marginalia_fence_marker(src, cursor) {
            return Some((cursor, marker_start));
        }
        let line_end = find_line_end(src, cursor, src.len());
        cursor = next_line_start(src.len(), line_end);
        if cursor == line_end {
            // The last line had no newline: the scan is complete.
            return None;
        }
    }
    None
}

/// Whether a marginalia region (`///` line or fence) starts at `pos`.
pub open spec fn marginalia_region_at(src: Seq<char>, pos: int) -> bool {
    is_line_start_spec(src, 0, pos) && (line_marker_spec(src, pos, seq!['/', '/', '/']) is Some
        || line_marker_spec(src, pos, seq!['`', '`', '`']) is Some)
}

/// Reading lines from `cursor`: the start of the first one that opens a
/// marginalia region, or the end of the source.
pub open spec fn marginalia_scan(src: Seq<char>, cursor: int) -> int
    decreases src.len() - cursor,
{
    if cursor < 0 || cursor >= src.len() {
        src.len() as int
    } else if marginalia_region_at(src, cursor) {
        cursor
    } else {
        proof {
            lemma_following_line(src, cursor);
        }
        match following_line(src, cursor) {
            Some(next) => marginalia_scan(src, next),
            None => src.len() as int,
        }
    }
}

/// The start of the next line at or after `from` that opens a marginalia
/// region, or the end of the source.
pub fn find_next_marginalia_region(src: &[char], from: usize) -> (r: usize)
    requires
        from <= src@.len(),
    ensures
        r == marginalia_scan(src@, from as int),
        from <= r <= src@.len(),
        r == from && from < src@.len() ==> marginalia_region_at(src@, from as int),
{
    let mut cursor = from;
    while cursor < src.len()
        invariant
            from <= cursor <= src@.len(),
            cursor == from || cursor > from,
            marginalia_scan(src@, from as int) == marginalia_scan(src@, cursor as int),
        decreases src@.len() - cursor,
    {
        if is_line_start(src, 0, cursor) && (marginalia_slash_marker(src, cursor).is_some()
            || marginalia_fence_marker(src, cursor).is_some()) {
            return cursor;
        }
        let line_end = find_line_end(src, cursor, src.len());
        let next = next_line_start(src.len(), line_end);
        if next == line_end {
            return src.len();
        }
        cursor = next;
    }
    src.len()
}


/// What kind of local subject marker starts at a position.
#[derive(Debug, Clone, Copy, PartialEq, Eq, Structural)]
pub enum LocalSubjectMarkerMatch {
    Absent,
    Valid(usize),
    Invalid(usize),
}

pub open spec fn marker_boundary_spec(src: Seq<char>, i: int, hi: int) -> bool {
    i >= hi || is_ws_spec(src[i]) || src[i] == '.' || src[i] == ',' || src[i] == ';'
}

/// The marker bodies `<`, `>`, `<>`, `<<`, `>>` and `<<>>`.
pub open spec fn valid_angles(s: Seq<char>) -> bool {
    ||| s == seq!['<']
    ||| s == seq!['>']
    ||| s == seq!['<', '>']
    ||| s == seq!['<', '<']
    ||| s == seq!['>', '>']
    ||| s == seq!['<', '<', '>', '>']
}

/// A local subject marker: an optional `~`, then a run of angle
/// brackets, then whitespace, `.`, `,`, `;` or the end of the region.
pub open spec fn marker_spec(src: Seq<char>, pos: int, hi: int) -> LocalSubjectMarkerMatch {
    let ms: int = if pos < hi && src[pos] == '~' {
        1
    } else {
        0
    };
    let angle_end = skip_spec(src, pos + ms, hi, CharClass::Angle);
    if angle_end == pos + ms {
        LocalSubjectMarkerMatch::Absent
    } else if !marker_boundary_spec(src, angle_end, hi) {
        LocalSubjectMarkerMatch::Absent
    } else if valid_angles(src.subrange(pos + ms, angle_end)) {
        LocalSubjectMarkerMatch::Valid((angle_end - pos) as usize)
    } else {
        LocalSubjectMarkerMatch::Invalid((angle_end - pos) as usize)
    }
}

pub fn local_subject_marker_at(src: &[char], pos: usize, hi: usize) -> (r: LocalSubjectMarkerMatch)
    requires
        pos <= hi <= src@.len(),
    ensures
        r == marker_spec(src@, pos as int, hi as int),
        r matches LocalSubjectMarkerMatch::Valid(l) ==> 1 <= l && pos + l <= hi,
        r matches LocalSubjectMarkerMatch::Invalid(l) ==> 1 <= l && pos + l <= hi,
        r !is Absent ==> (src@[pos as int] == '~' || src@[pos as int] == '<' || src@[pos as int]
            == '>'),
{
    let ms: usize = if pos < hi && src[pos] == '~' {
        1
    } else {
        0
    };
    let start = pos + ms;
    let angle_end = skip(src, start, hi, CharClass::Angle);
    proof {
        lemma_skip_bounds(src@, start as int, hi as int, CharClass::Angle);
    }
    if angle_end == start {
        return LocalSubjectMarkerMatch::Absent;
    }
    if angle_end < hi && !(is_ws(src[angle_end]) || src[angle_end] == '.' || src[angle_end] == ','
        || src[angle_end] == ';') {
        return LocalSubjectMarkerMatch::Absent;
    }
    let len = angle_end - start;
    let ghost body = src@.subrange(start as int, angle_end as int);
    let valid = if len == 1 {
        proof {
            assert(body =~= seq![src@[start as int]]);
        }
        true
    } else if len == 2 {
        starts_with_at(src, start, angle_end, &['<', '>']) || starts_with_at(
            src,
            start,
            angle_end,
            &['<', '<'],
        ) || starts_with_at(src, start, angle_end, &['>', '>'])
    } else if len == 4 {
        starts_with_at(src, start, angle_end, &['<', '<', '>', '>'])
    } else {
        false
    };
    proof {
        assert(['<', '>']@ =~= seq!['<', '>']);
        assert(['<', '<']@ =~= seq!['<', '<']);
        assert(['>', '>']@ =~= seq!['>', '>']);
        assert(['<', '<', '>', '>']@ =~= seq!['<', '<', '>', '>']);
        assert(body.len() == len);
        if len == 2 {
            assert(src@.subrange(start as int, start + 2) =~= body);
        }
        if len == 4 {
            assert(src@.subrange(start as int, start + 4) =~= body);
        }
        assert(valid == valid_angles(body));
    }
    if valid {
        LocalSubjectMarkerMatch::Valid(ms + len)
    } else {
        LocalSubjectMarkerMatch::Invalid(ms + len)
    }
}

/// An optional position, read as an integer.
pub open spec fn int_opt(r: Option<usize>) -> Option<int> {
    match r {
        Some(x) => Some(x as int),
        None => None,
    }
}

/// The two characters `}}`.
pub open spec fn close_pair() -> Seq<char> {
    seq!['}', '}']
}

/// Of a `}}` run at `pos`, the braces that close open captures (at
/// capture depth `depth`) before the last two close the block: the run's
/// extra braces, at most `depth` of them; `None` when no `}}` starts at
/// `pos`.
pub open spec fn close_prefix_spec(src: Seq<char>, pos: int, hi: int, depth: int) -> Option<int> {
    if occurs_at(src, pos, hi, close_pair()) {
        let closing = skip_spec(src, pos, hi, CharClass::CloseBrace) - pos - 2;
        Some(if depth < closing { depth } else { closing })
    } else {
        None
    }
}

/// What `close_prefix_spec` gives lies inside the run.
pub proof fn lemma_close_prefix_bounds(src: Seq<char>, pos: int, hi: int, depth: int)
    requires
        0 <= depth,
        hi <= src.len(),
    ensures
        close_prefix_spec(src, pos, hi, depth) matches Some(p) ==> 0 <= p <= depth && pos + p + 2
            <= hi && closes_at(src, pos + p),
        close_prefix_spec(src, pos, hi, depth) is None <==> !(pos + 2 <= hi && 0 <= pos && closes_at(
            src,
            pos,
        )),
{
    if occurs_at(src, pos, hi, close_pair()) {
        assert(src.subrange(pos, pos + 2)[0] == '}');
        assert(src.subrange(pos, pos + 2)[1] == '}');
        lemma_skip_bounds(src, pos, hi, CharClass::CloseBrace);
        let run_end = skip_spec(src, pos, hi, CharClass::CloseBrace);
        if run_end < pos + 2 {
            assert(in_class(src[run_end], CharClass::CloseBrace));
        }
        let closing = run_end - pos - 2;
        let p = if depth < closing { depth } else { closing };
        assert(in_class(src[pos + p], CharClass::CloseBrace));
        assert(in_class(src[pos + p + 1], CharClass::CloseBrace));
    } else if pos + 2 <= hi && 0 <= pos && closes_at(src, pos) {
        assert(src.subrange(pos, pos + 2) =~= close_pair());
    }
}

/// How many `}` of a `}}` run at `pos` close open captures rather than
/// the intralinea block: `None` when no `}}` starts at `pos`.
pub fn intralinea_close_capture_prefix(src: &[char], pos: usize, hi: usize, depth: usize) -> (r:
    Option<usize>)
    requires
        pos <= hi <= src@.len(),
    ensures
        int_opt(r) == close_prefix_spec(src@, pos as int, hi as int, depth as int),
        r matches Some(p) ==> p <= depth && pos + p + 2 <= hi && closes_at(src@, pos + p),
        r is None <==> !(pos + 2 <= hi && closes_at(src@, pos as int)),
{
    proof {
        lemma_close_prefix_bounds(src@, pos as int, hi as int, depth as int);
        assert(['}', '}']@ =~= close_pair());
    }
    if !starts_with_at(src, pos, hi, &['}', '}']) {
        proof {
            if pos + 2 <= hi && closes_at(src@, pos as int) {
                assert(src@.subrange(pos as int, pos + 2) =~= seq!['}', '}']);
            }
        }
        return None;
    }
    let run_end = skip(src, pos, hi, CharClass::CloseBrace);
    proof {
        assert(src@.subrange(pos as int, pos + 2)[0] == '}');
        assert(src@.subrange(pos as int, pos + 2)[1] == '}');
        lemma_skip_bounds(src@, pos as int, hi as int, CharClass::CloseBrace);
        if run_end < pos + 2 {
            assert(src@[run_end as int] == '}');
        }
    }
    let run = run_end - pos;
    let closing = run - 2;
    assert(closes_at(src@, pos + depth) || depth >= closing);
    assert(closes_at(src@, pos + closing));
    if depth < closing {
        Some(depth)
    } else {
        Some(closing)
    }
}

/// A `}}` stands at position `i`.
pub open spec fn closes_at(src: Seq<char>, i: int) -> bool {
    &&& 0 <= i
    &&& i + 2 <= src.len()
    &&& src[i] == '}'
    &&& src[i + 1] == '}'
}

/// Where a same-line quoted run (a string or backtick chunk) stops.
#[derive(Debug, Clone, Copy, PartialEq, Eq, Structural)]
pub enum SameLineQuoteBoundary {
    LexicalClose(usize),
    Newline(usize),
    HostClose(usize),
    Eof,
}

/// Reading a same-line quoted run from `cursor`: it stops at the closing
/// character or a line break, or, where a `}}` was passed on the way
/// (the first one kept in `recovery`), at that `}}`; an escape followed by
/// `}}` stops there at once.
pub open spec fn quote_boundary_spec(
    src: Seq<char>,
    cursor: int,
    hi: int,
    close: char,
    escapes: bool,
    recovery: Option<int>,
) -> SameLineQuoteBoundary
    decreases hi - cursor,
{
    if cursor >= hi || cursor < 0 {
        match recovery {
            Some(i) => SameLineQuoteBoundary::HostClose(i as usize),
            None => SameLineQuoteBoundary::Eof,
        }
    } else if occurs_at(src, cursor, hi, close_pair()) {
        quote_boundary_spec(
            src,
            cursor + 2,
            hi,
            close,
            escapes,
            if recovery is None {
                Some(cursor)
            } else {
                recovery
            },
        )
    } else if src[cursor] == '\n' || src[cursor] == '\r' {
        match recovery {
            Some(i) => SameLineQuoteBoundary::HostClose(i as usize),
            None => SameLineQuoteBoundary::Newline(cursor as usize),
        }
    } else if src[cursor] == close {
        SameLineQuoteBoundary::LexicalClose(cursor as usize)
    } else if escapes && src[cursor] == '\\' {
        if occurs_at(src, cursor + 1, hi, close_pair()) {
            SameLineQuoteBoundary::HostClose((cursor + 1) as usize)
        } else if cursor + 1 < hi && src[cursor + 1] != '\n' && src[cursor + 1] != '\r' {
            quote_boundary_spec(src, cursor + 2, hi, close, escapes, recovery)
        } else {
            quote_boundary_spec(src, cursor + 1, hi, close, escapes, recovery)
        }
    } else {
        quote_boundary_spec(src, cursor + 1, hi, close, escapes, recovery)
    }
}

/// Where a quoted run read from `cursor` stops lies ahead of `cursor`,
/// and a `}}` that it stops at stands where it says.
pub proof fn lemma_quote_boundary_bounds(
    src: Seq<char>,
    lo: int,
    cursor: int,
    hi: int,
    close: char,
    escapes: bool,
    recovery: Option<int>,
)
    requires
        0 <= lo <= cursor <= hi <= src.len(),
        hi <= usize::MAX,
        recovery matches Some(i) ==> lo <= i && i + 2 <= hi && closes_at(src, i),
    ensures
        quote_boundary_spec(src, cursor, hi, close, escapes, recovery) matches SameLineQuoteBoundary::LexicalClose(i)
            ==> cursor <= i < hi && src[i as int] == close,
        quote_boundary_spec(src, cursor, hi, close, escapes, recovery) matches SameLineQuoteBoundary::Newline(i)
            ==> cursor <= i < hi && (src[i as int] == '\n' || src[i as int] == '\r'),
        quote_boundary_spec(src, cursor, hi, close, escapes, recovery) matches SameLineQuoteBoundary::HostClose(i)
            ==> lo <= i && i + 2 <= hi && closes_at(src, i as int),
    decreases hi - cursor,
{
    if cursor < hi {
        if occurs_at(src, cursor, hi, close_pair()) {
            assert(src.subrange(cursor, cursor + 2)[0] == '}');
            assert(src.subrange(cursor, cursor + 2)[1] == '}');
            let next = if recovery is None {
                Some(cursor)
            } else {
                recovery
            };
            lemma_quote_boundary_bounds(src, lo, cursor + 2, hi, close, escapes, next);
        } else if src[cursor] == '\n' || src[cursor] == '\r' {
        } else if src[cursor] == close {
        } else if escapes && src[cursor] == '\\' {
            if occurs_at(src, cursor + 1, hi, close_pair()) {
                assert(src.subrange(cursor + 1, cursor + 3)[0] == '}');
                assert(src.subrange(cursor + 1, cursor + 3)[1] == '}');
            } else if cursor + 1 < hi && src[cursor + 1] != '\n' && src[cursor + 1] != '\r' {
                lemma_quote_boundary_bounds(src, lo, cursor + 2, hi, close, escapes, recovery);
            } else {
                lemma_quote_boundary_bounds(src, lo, cursor + 1, hi, close, escapes, recovery);
            }
        } else {
            lemma_quote_boundary_bounds(src, lo, cursor + 1, hi, close, escapes, recovery);
        }
    }
}

pub fn scan_same_line_quote_boundary(
    src: &[char],
    pos: usize,
    hi: usize,
    lexical_close: char,
    supports_escapes: bool,
) -> (r: SameLineQuoteBoundary)
    requires
        pos <= hi <= src@.len(),
    ensures
        r == quote_boundary_spec(src@, pos as int, hi as int, lexical_close, supports_escapes, None),
        r matches SameLineQuoteBoundary::LexicalClose(i) ==> pos <= i < hi && src@[i as int]
            == lexical_close,
        r matches SameLineQuoteBoundary::Newline(i) ==> pos <= i < hi && (src@[i as int] == '\n'
            || src@[i as int] == '\r'),
        r matches SameLineQuoteBoundary::HostClose(i) ==> pos <= i && i + 2 <= hi && closes_at(
            src@,
            i as int,
        ),
{
    let mut cursor = pos;
    let mut recovery_close: Option<usize> = None;
    proof {
        assert(['}', '}']@ =~= close_pair());
    }
    while cursor < hi
        invariant
            pos <= cursor <= hi <= src@.len(),
            recovery_close matches Some(i) ==> pos <= i && i + 2 <= hi && closes_at(src@, i as int),
            ['}', '}']@ == close_pair(),
            quote_boundary_spec(src@, pos as int, hi as int, lexical_close, supports_escapes, None)
                == quote_boundary_spec(
                src@,
                cursor as int,
                hi as int,
                lexical_close,
                supports_escapes,
                int_opt(recovery_close),
            ),
        decreases hi - cursor,
    {
        if starts_with_at(src, cursor, hi, &['}', '}']) {
            if recovery_close.is_none() {
                recovery_close = Some(cursor);
            }
            cursor = cursor + 2;
            continue;
        }
        let ch = src[cursor];
        if ch == '\n' || ch == '\r' {
            return match recovery_close {
                Some(i) => SameLineQuoteBoundary::HostClose(i),
                None => SameLineQuoteBoundary::Newline(cursor),
            };
        }
        if ch == lexical_close {
            return SameLineQuoteBoundary::LexicalClose(cursor);
        }
        if supports_escapes && ch == '\\' {
            cursor = cursor + 1;
            if starts_with_at(src, cursor, hi, &['}', '}']) {
                return SameLineQuoteBoundary::HostClose(cursor);
            }
            if cursor < hi {
                let next = src[cursor];
                if next != '\n' && next != '\r' {
                    cursor = cursor + 1;
                }
            }
        } else {
            cursor = cursor + 1;
        }
    }
    match recovery_close {
        Some(i) => SameLineQuoteBoundary::HostClose(i),
        None => SameLineQuoteBoundary::Eof,
    }
}

/// Reading the rest of a snippet that starts at `pos`, from `cursor` at
/// capture depth `depth`: the snippet's length. Outside quotes it ends
/// after a top-level `]`, before a line break or a `}}` that closes the
/// block; a quoted part ends as `quote_boundary_spec` reads it.
pub open spec fn snippet_scan(
    src: Seq<char>,
    pos: int,
    cursor: int,
    hi: int,
    depth: int,
    quoted: bool,
) -> int
    decreases hi - cursor,
{
    if cursor >= hi || cursor < 0 || hi > src.len() {
        hi - pos
    } else if !quoted && (src[cursor] == '\n' || src[cursor] == '\r') {
        cursor - pos
    } else if !quoted && close_prefix_spec(src, cursor, hi, depth) is Some {
        let p = close_prefix_spec(src, cursor, hi, depth)->0;
        if p <= 0 {
            cursor - pos
        } else {
            proof {
                lemma_skip_bounds(src, cursor, hi, CharClass::CloseBrace);
            }
            snippet_scan(src, pos, cursor + p, hi, depth - p, false)
        }
    } else if quoted {
        match quote_boundary_spec(src, cursor, hi, '"', true, None) {
            SameLineQuoteBoundary::LexicalClose(i) => if cursor <= i < hi {
                snippet_scan(src, pos, i + 1, hi, depth, false)
            } else {
                hi - pos
            },
            SameLineQuoteBoundary::Newline(i) => if cursor <= i < hi {
                snippet_scan(src, pos, i + 1, hi, depth, false)
            } else {
                hi - pos
            },
            SameLineQuoteBoundary::HostClose(i) => i - pos,
            SameLineQuoteBoundary::Eof => hi - pos,
        }
    } else if src[cursor] == '"' {
        snippet_scan(src, pos, cursor + 1, hi, depth, true)
    } else if src[cursor] == '{' {
        snippet_scan(src, pos, cursor + 1, hi, depth + 1, false)
    } else if src[cursor] == '}' && depth > 0 {
        snippet_scan(src, pos, cursor + 1, hi, depth - 1, false)
    } else if src[cursor] == ']' && depth == 0 {
        cursor + 1 - pos
    } else {
        snippet_scan(src, pos, cursor + 1, hi, depth, false)
    }
}

/// The length of the snippet at `pos`, or `None` when no `[` opens one.
pub open spec fn snippet_len_spec(src: Seq<char>, pos: int, hi: int) -> Option<int> {
    if 0 <= pos < hi && src[pos] == '[' {
        Some(snippet_scan(src, pos, pos + 1, hi, 0, false))
    } else {
        None
    }
}

/// A snippet read from `cursor` ends no earlier than `cursor` and no
/// later than `hi`.
pub proof fn lemma_snippet_scan_bounds(
    src: Seq<char>,
    pos: int,
    cursor: int,
    hi: int,
    depth: int,
    quoted: bool,
)
    requires
        0 <= pos < cursor <= hi <= src.len(),
        hi <= usize::MAX,
        0 <= depth,
    ensures
        cursor - pos <= snippet_scan(src, pos, cursor, hi, depth, quoted) <= hi - pos,
    decreases hi - cursor,
{
    if cursor < hi {
        if !quoted && (src[cursor] == '\n' || src[cursor] == '\r') {
        } else if !quoted && close_prefix_spec(src, cursor, hi, depth) is Some {
            lemma_close_prefix_bounds(src, cursor, hi, depth);
            let p = close_prefix_spec(src, cursor, hi, depth)->0;
            if p > 0 {
                lemma_snippet_scan_bounds(src, pos, cursor + p, hi, depth - p, false);
            }
        } else if quoted {
            lemma_quote_boundary_bounds(src, cursor, cursor, hi, '"', true, None);
            match quote_boundary_spec(src, cursor, hi, '"', true, None) {
                SameLineQuoteBoundary::LexicalClose(i) => {
                    lemma_snippet_scan_bounds(src, pos, i + 1, hi, depth, false);
                },
                SameLineQuoteBoundary::Newline(i) => {
                    lemma_snippet_scan_bounds(src, pos, i + 1, hi, depth, false);
                },
                _ => {},
            }
        } else if src[cursor] == '"' {
            lemma_snippet_scan_bounds(src, pos, cursor + 1, hi, depth, true);
        } else if src[cursor] == '{' {
            lemma_snippet_scan_bounds(src, pos, cursor + 1, hi, depth + 1, false);
        } else if src[cursor] == '}' && depth > 0 {
            lemma_snippet_scan_bounds(src, pos, cursor + 1, hi, depth - 1, false);
        } else if src[cursor] == ']' && depth == 0 {
        } else {
            lemma_snippet_scan_bounds(src, pos, cursor + 1, hi, depth, false);
        }
    }
}

/// The length of a snippet that starts at `pos` inside an intralinea
/// block, as the block scanner sees it.
pub fn intralinea_snippet_len(src: &[char], pos: usize, hi: usize) -> (r: Option<usize>)
    requires
        pos <= hi <= src@.len(),
    ensures
        int_opt(r) == snippet_len_spec(src@, pos as int, hi as int),
        r matches Some(l) ==> 1 <= l && pos + l <= hi,
{
    if !(pos < hi && src[pos] == '[') {
        return None;
    }
    let mut cursor = pos + 1;
    let mut capture_depth: usize = 0;
    let mut quoted = false;
    while cursor < hi
        invariant
            pos < cursor <= hi <= src@.len(),
            capture_depth <= cursor,
            snippet_len_spec(src@, pos as int, hi as int) == Some(
                snippet_scan(src@, pos as int, cursor as int, hi as int, capture_depth as int, quoted),
            ),
        decreases hi - cursor,
    {
        proof {
            lemma_quote_boundary_bounds(src@, cursor as int, cursor as int, hi as int, '"', true, None);
        }
        if !quoted {
            if src[cursor] == '\n' || src[cursor] == '\r' {
                return Some(cursor - pos);
            }
            if let Some(prefix) = intralinea_close_capture_prefix(src, cursor, hi, capture_depth) {
                if prefix == 0 {
                    return Some(cursor - pos);
                }
                capture_depth = capture_depth - prefix;
                cursor = cursor + prefix;
                continue;
            }
        }
        if quoted {
            match scan_same_line_quote_boundary(src, cursor, hi, '"', true) {
                SameLineQuoteBoundary::LexicalClose(i) => {
                    quoted = false;
                    cursor = i + 1;
                },
                SameLineQuoteBoundary::Newline(i) => {
                    quoted = false;
                    cursor = i + 1;
                },
                SameLineQuoteBoundary::HostClose(i) => {
                    return Some(i - pos);
                },
                SameLineQuoteBoundary::Eof => {
                    return Some(hi - pos);
                },
            }
            continue;
        }
        let ch = src[cursor];
        if ch == '"' {
            quoted = true;
        } else if ch == '{' {
            capture_depth = capture_depth + 1;
        } else if ch == '}' && capture_depth > 0 {
            capture_depth = capture_depth - 1;
        } else if ch == ']' && capture_depth == 0 {
            return Some(cursor + 1 - pos);
        }
        cursor = cursor + 1;
    }
    Some(hi - pos)
}

/// Reading the rest of a URI literal that starts at `pos`, from `idx`:
/// its length. It ends after a `>`; at whitespace or the end it ends
/// before the first `}}` passed on the way (kept in `recovery`), or there.
pub open spec fn uri_scan(src: Seq<char>, pos: int, idx: int, hi: int, recovery: Option<int>) -> int
    decreases hi - idx,
{
    if idx >= hi || idx < 0 {
        match recovery {
            Some(i) => i - pos,
            None => hi - pos,
        }
    } else {
        let seen = if recovery is None && occurs_at(src, idx, hi, close_pair()) {
            Some(idx)
        } else {
            recovery
        };
        if src[idx] == '>' {
            idx + 1 - pos
        } else if is_ws_spec(src[idx]) {
            match seen {
                Some(i) => i - pos,
                None => idx - pos,
            }
        } else {
            uri_scan(src, pos, idx + 1, hi, seen)
        }
    }
}

/// The length of the URI literal at `pos`: `None` unless a `<` opens it
/// and a character other than whitespace or an angle follows.
pub open spec fn uri_len_spec(src: Seq<char>, pos: int, hi: int) -> Option<int> {
    if 0 <= pos && pos + 1 < hi && src[pos] == '<' && !is_ws_spec(src[pos + 1]) && src[pos + 1] != '<'
        && src[pos + 1] != '>' {
        Some(uri_scan(src, pos, pos + 2, hi, None))
    } else {
        None
    }
}

/// A URI literal read from `idx` ends past its `<` and no later than `hi`.
pub proof fn lemma_uri_scan_bounds(src: Seq<char>, pos: int, idx: int, hi: int, recovery: Option<int>)
    requires
        0 <= pos < idx <= hi,
        recovery matches Some(i) ==> pos < i <= hi,
    ensures
        1 <= uri_scan(src, pos, idx, hi, recovery) <= hi - pos,
    decreases hi - idx,
{
    if idx < hi {
        let seen = if recovery is None && occurs_at(src, idx, hi, close_pair()) {
            Some(idx)
        } else {
            recovery
        };
        if src[idx] != '>' && !is_ws_spec(src[idx]) {
            lemma_uri_scan_bounds(src, pos, idx + 1, hi, seen);
        }
    }
}

/// The length of a URI literal that starts at `pos` inside an
/// intralinea block, as the block scanner sees it.
pub fn intralinea_uri_literal_len(src: &[char], pos: usize, hi: usize) -> (r: Option<usize>)
    requires
        pos <= hi <= src@.len(),
    ensures
        int_opt(r) == uri_len_spec(src@, pos as int, hi as int),
        r matches Some(l) ==> 1 <= l && pos + l <= hi,
{
    if !(pos < hi && src[pos] == '<') {
        return None;
    }
    if pos + 1 >= hi {
        return None;
    }
    let first = src[pos + 1];
    if is_ws(first) || first == '<' || first == '>' {
        return None;
    }
    let mut recovery_close: Option<usize> = None;
    let mut idx = pos + 2;
    proof {
        assert(['}', '}']@ =~= close_pair());
    }
    while idx < hi
        invariant
            pos + 2 <= idx <= hi <= src@.len(),
            recovery_close matches Some(i) ==> pos + 2 <= i <= hi,
            ['}', '}']@ == close_pair(),
            uri_len_spec(src@, pos as int, hi as int) == Some(
                uri_scan(src@, pos as int, idx as int, hi as int, int_opt(recovery_close)),
            ),
        decreases hi - idx,
    {
        if recovery_close.is_none() && starts_with_at(src, idx, hi, &['}', '}']) {
            recovery_close = Some(idx);
        }
        let ch = src[idx];
        if ch == '>' {
            return Some(idx + 1 - pos);
        }
        if is_ws(ch) {
            return match recovery_close {
                Some(i) => Some(i - pos),
                None => Some(idx - pos),
            };
        }
        idx = idx + 1;
    }
    match recovery_close {
        Some(i) => Some(i - pos),
        None => Some(hi - pos),
    }
}

/// The kind of quoted run that the block scanner is inside.
#[derive(Debug, Clone, Copy, PartialEq, Eq, Structural)]
pub enum OpenQuote {
    Double,
    Triple,
    Backtick,
}

/// The first `}}` in `from..hi`.
fn find_close(src: &[char], from: usize, hi: usize) -> (r: Option<usize>)
    requires
        from <= hi <= src@.len(),
    ensures
        int_opt(r) == find_spec(src@, from as int, hi as int, close_pair()),
        r matches Some(i) ==> from <= i && i + 2 <= hi && closes_at(src@, i as int),
{
    let pattern = ['}', '}'];
    assert(pattern@ =~= close_pair());
    let r = find(src, from, hi, &pattern);
    proof {
        lemma_find_bounds(src@, from as int, hi as int, pattern@);
        if let Some(i) = r {
            assert(src@.subrange(i as int, i + 2)[0] == pattern@[0]);
            assert(src@.subrange(i as int, i + 2)[1] == pattern@[1]);
        }
    }
    r
}

/// A quoted run of the given kind, read from `cursor`, stops where the
/// block scanner resumes (`Ok`) or at the `}}` that closes the block
/// (`Err`); `None` when neither comes before `hi`.
pub open spec fn quote_exit(src: Seq<char>, cursor: int, hi: int, open: OpenQuote) -> Option<
    Result<int, int>,
> {
    match open {
        OpenQuote::Triple => match find_spec(src, cursor, hi, seq!['"', '"', '"']) {
            Some(end) => Some(Ok(end + 3)),
            None => match find_spec(src, cursor, hi, close_pair()) {
                Some(c) => Some(Err(c)),
                None => None,
            },
        },
        _ => {
            let close = if open is Double {
                '"'
            } else {
                '`'
            };
            match quote_boundary_spec(src, cursor, hi, close, open is Double, None) {
                SameLineQuoteBoundary::LexicalClose(i) => Some(Ok(i + 1)),
                SameLineQuoteBoundary::Newline(i) => Some(Ok(i + 1)),
                SameLineQuoteBoundary::HostClose(i) => Some(Err(i as int)),
                SameLineQuoteBoundary::Eof => None,
            }
        },
    }
}

/// Where a quoted run resumes lies past `cursor`, and a `}}` that ends
/// it stands where it says.
pub proof fn lemma_quote_exit_bounds(src: Seq<char>, cursor: int, hi: int, open: OpenQuote)
    requires
        0 <= cursor <= hi <= src.len(),
        hi <= usize::MAX,
    ensures
        quote_exit(src, cursor, hi, open) matches Some(Ok(next)) ==> cursor < next <= hi,
        quote_exit(src, cursor, hi, open) matches Some(Err(i)) ==> cursor <= i && i + 2 <= hi
            && closes_at(src, i),
{
    let close = if open is Double {
        '"'
    } else {
        '`'
    };
    lemma_quote_boundary_bounds(src, cursor, cursor, hi, close, open is Double, None);
    lemma_find_bounds(src, cursor, hi, seq!['"', '"', '"']);
    lemma_find_bounds(src, cursor, hi, close_pair());
    if let Some(c) = find_spec(src, cursor, hi, close_pair()) {
        assert(src.subrange(c, c + 2)[0] == '}');
        assert(src.subrange(c, c + 2)[1] == '}');
    }
}

/// Reading an intralinea block body from `cursor`, at capture depth
/// `depth`, inside the given quoted run or comment: the position of the
/// `}}` that closes the block, or `None` when none does before `hi`.
/// Strings, backtick runs, snippets, URI literals and comments are
/// skipped whole; a `}}` run first closes open captures.
pub open spec fn close_scan(
    src: Seq<char>,
    cursor: int,
    hi: int,
    depth: int,
    quote: Option<OpenQuote>,
    line_comment: bool,
    block_comment: bool,
) -> Option<int>
    decreases hi - cursor,
{
    if cursor >= hi || cursor < 0 || hi > src.len() || hi > usize::MAX {
        None
    } else if line_comment {
        close_scan(src, cursor + 1, hi, depth, quote, src[cursor] != '\n', block_comment)
    } else if block_comment {
        proof {
            lemma_find_bounds(src, cursor, hi, seq!['*', '/']);
        }
        match find_spec(src, cursor, hi, seq!['*', '/']) {
            Some(end) => close_scan(src, end + 2, hi, depth, quote, false, false),
            None => find_spec(src, cursor, hi, close_pair()),
        }
    } else if quote is Some {
        proof {
            lemma_quote_exit_bounds(src, cursor, hi, quote->0);
        }
        match quote_exit(src, cursor, hi, quote->0) {
            Some(Ok(next)) => close_scan(src, next, hi, depth, None, false, false),
            Some(Err(i)) => Some(i),
            None => None,
        }
    } else if occurs_at(src, cursor, hi, seq!['"', '"', '"']) {
        close_scan(src, cursor + 3, hi, depth, Some(OpenQuote::Triple), false, false)
    } else if src[cursor] == '"' {
        close_scan(src, cursor + 1, hi, depth, Some(OpenQuote::Double), false, false)
    } else if src[cursor] == '`' {
        close_scan(src, cursor + 1, hi, depth, Some(OpenQuote::Backtick), false, false)
    } else if snippet_len_spec(src, cursor, hi) is Some {
        proof {
            lemma_snippet_scan_bounds(src, cursor, cursor + 1, hi, 0, false);
        }
        close_scan(src, cursor + snippet_len_spec(src, cursor, hi)->0, hi, depth, None, false, false)
    } else if uri_len_spec(src, cursor, hi) is Some {
        proof {
            lemma_uri_scan_bounds(src, cursor, cursor + 2, hi, None);
        }
        close_scan(src, cursor + uri_len_spec(src, cursor, hi)->0, hi, depth, None, false, false)
    } else if depth > 0 && (src[cursor] == '\n' || src[cursor] == '\r') {
        close_scan(src, cursor + 1, hi, 0, None, false, false)
    } else if depth == 0 && occurs_at(src, cursor, hi, seq!['/', '/']) {
        close_scan(src, cursor + 2, hi, depth, None, true, false)
    } else if depth == 0 && occurs_at(src, cursor, hi, seq!['/', '*']) {
        close_scan(src, cursor + 2, hi, depth, None, false, true)
    } else if close_prefix_spec(src, cursor, hi, depth) is Some {
        let p = close_prefix_spec(src, cursor, hi, depth)->0;
        if p <= 0 {
            Some(cursor)
        } else {
            proof {
                lemma_skip_bounds(src, cursor, hi, CharClass::CloseBrace);
            }
            close_scan(src, cursor + p, hi, depth - p, None, false, false)
        }
    } else if src[cursor] == '{' {
        close_scan(src, cursor + 1, hi, depth + 1, None, false, false)
    } else if src[cursor] == '}' && depth > 0 {
        close_scan(src, cursor + 1, hi, depth - 1, None, false, false)
    } else {
        close_scan(src, cursor + 1, hi, depth, None, false, false)
    }
}

/// The position of the `}}` that closes an intralinea block whose body
/// starts at `from`, skipping strings, snippets, captures, URIs and
/// comments; `None` when the block is never closed.
pub fn find_intralinea_close(src: &[char], from: usize) -> (r: Option<usize>)
    requires
        from <= src@.len(),
    ensures
        int_opt(r) == close_scan(src@, from as int, src@.len() as int, 0, None, false, false),
        r matches Some(i) ==> from <= i && i + 2 <= src@.len() && closes_at(src@, i as int),
{
    let hi = src.len();
    let mut cursor = from;
    let mut capture_depth: usize = 0;
    let mut quote: Option<OpenQuote> = None;
    let mut line_comment = false;
    let mut block_comment = false;
    proof {
        assert(['}', '}']@ =~= close_pair());
        assert(['*', '/']@ =~= seq!['*', '/']);
        assert(['"', '"', '"']@ =~= seq!['"', '"', '"']);
        assert(['/', '/']@ =~= seq!['/', '/']);
        assert(['/', '*']@ =~= seq!['/', '*']);
    }
    while cursor < hi
        invariant
            from <= cursor <= hi == src@.len(),
            capture_depth <= cursor,
            ['}', '}']@ == close_pair(),
            ['*', '/']@ == seq!['*', '/'],
            ['"', '"', '"']@ == seq!['"', '"', '"'],
            ['/', '/']@ == seq!['/', '/'],
            ['/', '*']@ == seq!['/', '*'],
            close_scan(src@, from as int, hi as int, 0, None, false, false) == close_scan(
                src@,
                cursor as int,
                hi as int,
                capture_depth as int,
                quote,
                line_comment,
                block_comment,
            ),
            line_comment ==> quote is None && !block_comment,
            block_comment ==> quote is None,
        decreases hi - cursor,
    {
        if line_comment {
            if src[cursor] == '\n' {
                line_comment = false;
            }
            cursor = cursor + 1;
            continue;
        }
        if block_comment {
            if let Some(end) = find(src, cursor, hi, &['*', '/']) {
                block_comment = false;
                cursor = end + 2;
            } else if let Some(close) = find_close(src, cursor, hi) {
                return Some(close);
            } else {
                cursor = hi;
            }
            continue;
        }
        if let Some(open) = quote {
            match open {
                OpenQuote::Double => {
                    match scan_same_line_quote_boundary(src, cursor, hi, '"', true) {
                        SameLineQuoteBoundary::LexicalClose(i) => {
                            quote = None;
                            cursor = i + 1;
                        },
                        SameLineQuoteBoundary::Newline(i) => {
                            quote = None;
                            cursor = i + 1;
                        },
                        SameLineQuoteBoundary::HostClose(i) => {
                            return Some(i);
                        },
                        SameLineQuoteBoundary::Eof => {
                            cursor = hi;
                        },
                    }
                },
                OpenQuote::Triple => {
                    if let Some(end) = find(src, cursor, hi, &['"', '"', '"']) {
                        quote = None;
                        cursor = end + 3;
                    } else if let Some(close) = find_close(src, cursor, hi) {
                        return Some(close);
                    } else {
                        cursor = hi;
                    }
                },
                OpenQuote::Backtick => {
                    match scan_same_line_quote_boundary(src, cursor, hi, '`', false) {
                        SameLineQuoteBoundary::LexicalClose(i) => {
                            quote = None;
                            cursor = i + 1;
                        },
                        SameLineQuoteBoundary::Newline(i) => {
                            quote = None;
                            cursor = i + 1;
                        },
                        SameLineQuoteBoundary::HostClose(i) => {
                            return Some(i);
                        },
                        SameLineQuoteBoundary::Eof => {
                            cursor = hi;
                        },
                    }
                },
            }
            continue;
        }
        if starts_with_at(src, cursor, hi, &['"', '"', '"']) {
            quote = Some(OpenQuote::Triple);
            cursor = cursor + 3;
        } else if src[cursor] == '"' {
            quote = Some(OpenQuote::Double);
            cursor = cursor + 1;
        } else if src[cursor] == '`' {
            quote = Some(OpenQuote::Backtick);
            cursor = cursor + 1;
        } else if let Some(len) = intralinea_snippet_len(src, cursor, hi) {
            cursor = cursor + len;
        } else if let Some(len) = intralinea_uri_literal_len(src, cursor, hi) {
            cursor = cursor + len;
        } else if capture_depth > 0 && (src[cursor] == '\n' || src[cursor] == '\r') {
            capture_depth = 0;
            cursor = cursor + 1;
        } else if capture_depth == 0 && starts_with_at(src, cursor, hi, &['/', '/']) {
            line_comment = true;
            cursor = cursor + 2;
        } else if capture_depth == 0 && starts_with_at(src, cursor, hi, &['/', '*']) {
            block_comment = true;
            cursor = cursor + 2;
        } else if let Some(prefix) = intralinea_close_capture_prefix(src, cursor, hi, capture_depth) {
            if prefix == 0 {
                return Some(cursor);
            }
            capture_depth = capture_depth - prefix;
            cursor = cursor + prefix;
        } else if src[cursor] == '{' {
            capture_depth = capture_depth + 1;
            cursor = cursor + 1;
        } else if src[cursor] == '}' && capture_depth > 0 {
            capture_depth = capture_depth - 1;
            cursor = cursor + 1;
        } else {
            cursor = cursor + 1;
        }
    }
    None
}

/// Reading a snippet from `cursor` at capture depth `depth`: whether an
/// unquoted `..` outside captures comes before its closing `]` and before
/// the end of the line; where `close_aware`, a `}}` that closes the
/// enclosing block ends the snippet too.
pub open spec fn range_scan(
    src: Seq<char>,
    cursor: int,
    hi: int,
    depth: int,
    quoted: bool,
    close_aware: bool,
) -> bool
    decreases hi - cursor,
{
    if cursor >= hi || cursor < 0 || hi > src.len() {
        false
    } else if close_aware && !quoted && close_prefix_spec(src, cursor, hi, depth) is Some {
        let p = close_prefix_spec(src, cursor, hi, depth)->0;
        if p <= 0 {
            false
        } else {
            proof {
                lemma_skip_bounds(src, cursor, hi, CharClass::CloseBrace);
            }
            range_scan(src, cursor + p, hi, depth - p, quoted, close_aware)
        }
    } else if src[cursor] == '\n' || src[cursor] == '\r' {
        false
    } else if quoted {
        if src[cursor] == '\\' {
            if cursor + 1 < hi && src[cursor + 1] != '\n' && src[cursor + 1] != '\r' {
                range_scan(src, cursor + 2, hi, depth, quoted, close_aware)
            } else {
                range_scan(src, cursor + 1, hi, depth, quoted, close_aware)
            }
        } else {
            range_scan(src, cursor + 1, hi, depth, src[cursor] != '"', close_aware)
        }
    } else if src[cursor] == '"' && depth == 0 {
        range_scan(src, cursor + 1, hi, depth, true, close_aware)
    } else if src[cursor] == '{' {
        range_scan(src, cursor + 1, hi, depth + 1, false, close_aware)
    } else if src[cursor] == '}' && depth > 0 {
        range_scan(src, cursor + 1, hi, depth - 1, false, close_aware)
    } else if src[cursor] == ']' && depth == 0 {
        false
    } else if src[cursor] == '.' && depth == 0 && occurs_at(src, cursor, hi, seq!['.', '.']) {
        true
    } else {
        range_scan(src, cursor + 1, hi, depth, false, close_aware)
    }
}

/// Whether the snippet at `pos` (after its `[`, if one stands there) is a
/// range snippet.
pub open spec fn contains_range_spec(src: Seq<char>, pos: int, hi: int, close_aware: bool) -> bool {
    let start = if 0 <= pos < hi && src[pos] == '[' {
        pos + 1
    } else {
        pos
    };
    range_scan(src, start, hi, 0, false, close_aware)
}

/// Whether the snippet starting at `pos` contains an unquoted,
/// top-level `..` before its closing `]`.
pub fn snippet_contains_range(src: &[char], pos: usize, hi: usize, intralinea_close_aware: bool) -> (r:
    bool)
    requires
        pos <= hi <= src@.len(),
    ensures
        r == contains_range_spec(src@, pos as int, hi as int, intralinea_close_aware),
        r ==> exists|i: int| pos <= i && i + 2 <= hi && #[trigger] src@[i] == '.' && src@[i + 1] == '.',
{
    let mut cursor = if pos < hi && src[pos] == '[' {
        pos + 1
    } else {
        pos
    };
    let mut quoted = false;
    let mut capture_depth: usize = 0;
    proof {
        assert(['.', '.']@ =~= seq!['.', '.']);
    }
    while cursor < hi
        invariant
            pos <= cursor <= hi <= src@.len(),
            capture_depth <= cursor,
            ['.', '.']@ == seq!['.', '.'],
            contains_range_spec(src@, pos as int, hi as int, intralinea_close_aware) == range_scan(
                src@,
                cursor as int,
                hi as int,
                capture_depth as int,
                quoted,
                intralinea_close_aware,
            ),
        decreases hi - cursor,
    {
        if intralinea_close_aware && !quoted {
            if let Some(prefix) = intralinea_close_capture_prefix(src, cursor, hi, capture_depth) {
                if prefix == 0 {
                    return false;
                }
                capture_depth = capture_depth - prefix;
                cursor = cursor + prefix;
                continue;
            }
        }
        let ch = src[cursor];
        if ch == '\n' || ch == '\r' {
            return false;
        }
        if quoted {
            if ch == '\\' {
                cursor = cursor + 1;
                if cursor < hi {
                    let next = src[cursor];
                    if next != '\n' && next != '\r' {
                        cursor = cursor + 1;
                    }
                }
                continue;
            }
            if ch == '"' {
                quoted = false;
            }
        } else {
            if ch == '"' && capture_depth == 0 {
                quoted = true;
            } else if ch == '{' {
                capture_depth = capture_depth + 1;
            } else if ch == '}' && capture_depth > 0 {
                capture_depth = capture_depth - 1;
            } else if ch == ']' && capture_depth == 0 {
                return false;
            } else if ch == '.' && capture_depth == 0 && starts_with_at(src, cursor, hi, &['.', '.']) {
                assert(src@.subrange(cursor as int, cursor + 2)[1] == src@[cursor + 1]);
                return true;
            }
        }
        cursor = cursor + 1;
    }
    false
}

} // verus!
