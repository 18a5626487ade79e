//! Snippet matching over canonical visible text: normalisation, pattern
//! assembly, occurrence search, captures and ranges.
use vstd::prelude::*;
use crate::diagnostic::{Diagnostic, DiagnosticCode, Severity};
use crate::scan::{find, find_spec, lemma_find_bounds};
use crate::snippet::{parts_view, PartView, SnippetPart};
use crate::text::{chars_of, is_ws, is_ws_spec, occurs_at};
use crate::visible_text::{nfc, nfc_spec, Profile, VisibleText};

verus! {

/// A half-open range of Unicode scalar offsets into visible text.
#[derive(Debug, Clone, Copy, PartialEq, Eq, Structural)]
pub struct TextSpan {
    pub start: usize,
    pub end: usize,
}

/// Text after normalisation, with the range of source characters
/// that each normalised character stands for.
#[derive(Debug)]
pub struct NormalizedText {
    pub text: Vec<char>,
    pub starts: Vec<usize>,
    pub ends: Vec<usize>,
}

/// The loose-matching replacement of a typographic character.
pub open spec fn loose_replacement_spec(c: char) -> Option<Seq<char>> {
    if c == '\u{2010}' || c == '\u{2011}' || c == '\u{2012}' || c == '\u{2013}' || c == '\u{2014}'
        || c == '\u{2212}' {
        Some(seq!['-'])
    } else if c == '\u{2018}' || c == '\u{2019}' || c == '\u{201a}' || c == '\u{201b}' {
        Some(seq!['\''])
    } else if c == '\u{201c}' || c == '\u{201d}' || c == '\u{201e}' || c == '\u{201f}' {
        Some(seq!['"'])
    } else if c == '\u{fb00}' {
        Some(seq!['f', 'f'])
    } else if c == '\u{fb01}' {
        Some(seq!['f', 'i'])
    } else if c == '\u{fb02}' {
        Some(seq!['f', 'l'])
    } else if c == '\u{fb03}' {
        Some(seq!['f', 'f', 'i'])
    } else if c == '\u{fb04}' {
        Some(seq!['f', 'f', 'l'])
    } else if c == '\u{fb05}' || c == '\u{fb06}' {
        Some(seq!['s', 't'])
    } else {
        None
    }
}

fn loose_replacement(c: char) -> (r: Option<Vec<char>>)
    ensures
        r matches Some(v) ==> loose_replacement_spec(c) == Some(v@),
        r is None ==> loose_replacement_spec(c) is None,
{
    let r: Option<Vec<char>> = if c == '\u{2010}' || c == '\u{2011}' || c == '\u{2012}' || c
        == '\u{2013}' || c == '\u{2014}' || c == '\u{2212}' {
        Some(vec!['-'])
    } else if c == '\u{2018}' || c == '\u{2019}' || c == '\u{201a}' || c == '\u{201b}' {
        Some(vec!['\''])
    } else if c == '\u{201c}' || c == '\u{201d}' || c == '\u{201e}' || c == '\u{201f}' {
        Some(vec!['"'])
    } else if c == '\u{fb00}' {
        Some(vec!['f', 'f'])
    } else if c == '\u{fb01}' {
        Some(vec!['f', 'i'])
    } else if c == '\u{fb02}' {
        Some(vec!['f', 'l'])
    } else if c == '\u{fb03}' {
        Some(vec!['f', 'f', 'i'])
    } else if c == '\u{fb04}' {
        Some(vec!['f', 'f', 'l'])
    } else if c == '\u{fb05}' || c == '\u{fb06}' {
        Some(vec!['s', 't'])
    } else {
        None
    };
    assert(r matches Some(v) ==> v@ =~= loose_replacement_spec(c).unwrap());
    r
}

/// The characters a non-whitespace character normalises to.
pub open spec fn replacement_of(c: char, loose: bool) -> Seq<char> {
    if loose {
        match loose_replacement_spec(c) {
            Some(r) => r,
            None => seq![c],
        }
    } else {
        seq![c]
    }
}

/// Normalised text of `s` from `i` on. Under loose matching a run of
/// whitespace becomes a single space; `pending` says that a run is open
/// before `i`.
pub open spec fn normal_from(s: Seq<char>, i: int, loose: bool, pending: bool) -> Seq<char>
    decreases s.len() - i,
{
    if i >= s.len() {
        if pending {
            seq![' ']
        } else {
            Seq::empty()
        }
    } else if loose && is_ws_spec(s[i]) {
        normal_from(s, i + 1, loose, true)
    } else {
        (if pending {
            seq![' ']
        } else {
            Seq::empty()
        }) + replacement_of(s[i], loose) + normal_from(s, i + 1, loose, false)
    }
}

/// The normalised text of `input`: NFC, then (when loose) whitespace
/// runs folded to one space and typographic characters replaced.
pub open spec fn normal_text(input: Seq<char>, loose: bool) -> Seq<char> {
    normal_from(nfc_spec(input), 0, loose, false)
}

/// For each character of `normal_from(s, i, loose, pending.is_some())`,
/// the range of characters of `s` it stands for; `pending` is where the
/// open whitespace run began.
pub open spec fn normal_map_from(s: Seq<char>, i: int, loose: bool, pending: Option<int>) -> Seq<(int, int)>
    decreases s.len() - i,
{
    if i >= s.len() {
        match pending {
            Some(w) => seq![(w, s.len() as int)],
            None => Seq::empty(),
        }
    } else if loose && is_ws_spec(s[i]) {
        normal_map_from(s, i + 1, loose, if pending is Some { pending } else { Some(i) })
    } else {
        (match pending {
            Some(w) => seq![(w, i)],
            None => Seq::empty(),
        }) + Seq::new(replacement_of(s[i], loose).len(), |_k: int| (i, i + 1)) + normal_map_from(
            s,
            i + 1,
            loose,
            None,
        )
    }
}

/// Where each character of `normal_text(input, loose)` comes from, as
/// character offsets into the NFC form of `input`.
pub open spec fn normal_map(input: Seq<char>, loose: bool) -> Seq<(int, int)> {
    normal_map_from(nfc_spec(input), 0, loose, None)
}

/// The ranges recorded by two parallel vectors.
pub open spec fn pairs_of(starts: Seq<usize>, ends: Seq<usize>) -> Seq<(int, int)> {
    Seq::new(starts.len(), |k: int| (starts[k] as int, ends[k] as int))
}

/// Every normalised character stands for a non-empty range of source
/// characters that ends at or before `bound`.
pub open spec fn spans_within(starts: Seq<usize>, ends: Seq<usize>, bound: int) -> bool {
    &&& starts.len() == ends.len()
    &&& forall|k: int| 0 <= k < starts.len() ==> #[trigger] starts[k] < ends[k] <= bound
}

pub open spec fn normalized_wf(n: &NormalizedText, source_len: int) -> bool {
    &&& n.starts@.len() == n.text@.len()
    &&& spans_within(n.starts@, n.ends@, source_len)
}

proof fn lemma_spans_push(starts: Seq<usize>, ends: Seq<usize>, bound: int, s: usize, e: usize, wider: int)
    requires
        spans_within(starts, ends, bound),
        s < e <= wider,
        bound <= wider,
    ensures
        spans_within(starts.push(s), ends.push(e), wider),
{
    assert forall|k: int| 0 <= k < starts.len() + 1 implies #[trigger] starts.push(s)[k] < ends.push(e)[k]
        <= wider by {
        if k < starts.len() {
            assert(starts.push(s)[k] == starts[k]);
            assert(ends.push(e)[k] == ends[k]);
        }
    }
}

proof fn lemma_spans_widen(starts: Seq<usize>, ends: Seq<usize>, bound: int, wider: int)
    requires
        spans_within(starts, ends, bound),
        bound <= wider,
    ensures
        spans_within(starts, ends, wider),
{
}

/// Records one normalised character standing for `s..e`.
fn push_normal(text: &mut Vec<char>, starts: &mut Vec<usize>, ends: &mut Vec<usize>, c: char, s: usize, e: usize, Ghost(bound): Ghost<int>, Ghost(wider): Ghost<int>)
    requires
        old(starts)@.len() == old(text)@.len(),
        spans_within(old(starts)@, old(ends)@, bound),
        s < e <= wider,
        bound <= wider,
    ensures
        final(text)@ == old(text)@.push(c),
        final(starts)@.len() == final(text)@.len(),
        spans_within(final(starts)@, final(ends)@, wider),
        pairs_of(final(starts)@, final(ends)@) == pairs_of(old(starts)@, old(ends)@).push(
            (s as int, e as int),
        ),
{
    proof {
        lemma_spans_push(starts@, ends@, bound, s, e, wider);
    }
    let ghost p0 = pairs_of(starts@, ends@);
    text.push(c);
    starts.push(s);
    ends.push(e);
    assert(pairs_of(starts@, ends@) =~= p0.push((s as int, e as int)));
}

/// Normalises `input` for matching.
pub fn normalize(input: &[char], loose: bool) -> (r: NormalizedText)
    ensures
        r.text@ == normal_text(input@, loose),
        normalized_wf(&r, nfc_spec(input@).len() as int),
        !loose ==> r.text@ == nfc_spec(input@),
        pairs_of(r.starts@, r.ends@) == normal_map(input@, loose),
{
    let nfc_text = nfc(input);
    let s = nfc_text.as_slice();
    let len = s.len();
    let mut text: Vec<char> = Vec::new();
    let mut starts: Vec<usize> = Vec::new();
    let mut ends: Vec<usize> = Vec::new();
    let mut whitespace_start: Option<usize> = None;
    let mut index: usize = 0;
    while index < len
        invariant
            len == s@.len(),
            s@ == nfc_spec(input@),
            index <= len,
            whitespace_start matches Some(w) ==> w < index,
            !loose ==> whitespace_start is None,
            text@ + normal_from(s@, index as int, loose, whitespace_start is Some) == normal_from(
                s@,
                0,
                loose,
                false,
            ),
            !loose ==> text@ == s@.subrange(0, index as int),
            starts@.len() == text@.len(),
            spans_within(starts@, ends@, index as int),
            pairs_of(starts@, ends@) + normal_map_from(s@, index as int, loose, match whitespace_start {
                Some(w) => Some(w as int),
                None => None,
            }) == normal_map_from(s@, 0, loose, None),
        decreases len - index,
    {
        let character = s[index];
        if loose && is_ws(character) {
            if whitespace_start.is_none() {
                whitespace_start = Some(index);
            }
            proof {
                lemma_spans_widen(starts@, ends@, index as int, index + 1);
            }
            index = index + 1;
            continue;
        }
        if let Some(start) = whitespace_start {
            push_normal(&mut text, &mut starts, &mut ends, ' ', start, index, Ghost(index as int), Ghost(index as int));
            whitespace_start = None;
        }
        let ghost with_space = text@;
        let ghost pairs_with_space = pairs_of(starts@, ends@);
        let replacement: Vec<char> = if loose {
            match loose_replacement(character) {
                Some(r) => r,
                None => vec![character],
            }
        } else {
            vec![character]
        };
        assert(replacement@ == replacement_of(character, loose)) by {
            if !loose {
                assert(replacement@ =~= seq![character]);
            } else if loose_replacement_spec(character) is None {
                assert(replacement@ =~= seq![character]);
            }
        }
        proof {
            lemma_spans_widen(starts@, ends@, index as int, index + 1);
        }
        let mut k: usize = 0;
        while k < replacement.len()
            invariant
                k <= replacement@.len(),
                index < len,
                text@ == with_space + replacement@.subrange(0, k as int),
                starts@.len() == text@.len(),
                spans_within(starts@, ends@, index + 1),
                pairs_of(starts@, ends@) == pairs_with_space + Seq::new(
                    k as nat,
                    |_t: int| (index as int, index + 1),
                ),
            decreases replacement@.len() - k,
        {
            push_normal(&mut text, &mut starts, &mut ends, replacement[k], index, index + 1, Ghost(index + 1), Ghost(index + 1));
            k = k + 1;
            assert(replacement@.subrange(0, k as int) =~= replacement@.subrange(0, k - 1) + seq![replacement@[k - 1]]);
            assert(Seq::new(k as nat, |_t: int| (index as int, index + 1)) =~= Seq::new(
                (k - 1) as nat,
                |_t: int| (index as int, index + 1),
            ).push((index as int, index + 1)));
        }
        assert(replacement@.subrange(0, replacement@.len() as int) =~= replacement@);
        proof {
            if !loose {
                assert(s@.subrange(0, index + 1) =~= s@.subrange(0, index as int) + seq![character]);
            }
        }
        index = index + 1;
    }
    if let Some(start) = whitespace_start {
        push_normal(&mut text, &mut starts, &mut ends, ' ', start, len, Ghost(len as int), Ghost(len as int));
    }
    proof {
        assert(s@.subrange(0, len as int) =~= s@);
        if whitespace_start is None {
            assert(text@ + Seq::<char>::empty() =~= text@);
            assert(pairs_of(starts@, ends@) + Seq::<(int, int)>::empty() =~= pairs_of(starts@, ends@));
        }
    }
    NormalizedText { text, starts, ends }
}

/// The non-overlapping occurrences of `needle` in `haystack` at or after
/// `from`, found left to right.
pub open spec fn matches_from(haystack: Seq<char>, needle: Seq<char>, from: int) -> Seq<(int, int)>
    decreases haystack.len() + 1 - from,
{
    if needle.len() == 0 || from < 0 {
        Seq::empty()
    } else {
        match find_spec(haystack, from, haystack.len() as int, needle) {
            Some(p) => if p >= from {
                proof {
                    lemma_find_bounds(haystack, from, haystack.len() as int, needle);
                }
                seq![(p, p + needle.len())] + matches_from(haystack, needle, p + needle.len())
            } else {
                Seq::empty()
            },
            None => Seq::empty(),
        }
    }
}

/// Finds every non-overlapping occurrence of `needle`, left to right.
pub fn find_matches(haystack: &[char], needle: &[char]) -> (r: Vec<(usize, usize)>)
    ensures
        r@.len() == matches_from(haystack@, needle@, 0).len(),
        forall|k: int|
            0 <= k < r@.len() ==> (#[trigger] r@[k]).0 as int == matches_from(haystack@, needle@, 0)[k].0
                && r@[k].1 as int == matches_from(haystack@, needle@, 0)[k].1 && r@[k].1 == r@[k].0 + needle@.len() && r@[k].0 < r@[k].1
                <= haystack@.len(),
{
    let mut matches: Vec<(usize, usize)> = Vec::new();
    if needle.len() == 0 {
        return matches;
    }
    let mut cursor: usize = 0;
    let ghost target = matches_from(haystack@, needle@, 0);
    loop
        invariant
            needle@.len() > 0,
            cursor <= haystack@.len(),
            matches@.len() + matches_from(haystack@, needle@, cursor as int).len() == target.len(),
            forall|k: int|
                0 <= k < matches@.len() ==> (#[trigger] matches@[k]).0 as int == target[k].0
                    && matches@[k].1 as int == target[k].1 && matches@[k].1 == matches@[k].0 + needle@.len() && matches@[k].0 < matches@[k].1
                    <= haystack@.len(),
            forall|k: int|
                0 <= k < matches_from(haystack@, needle@, cursor as int).len() ==> matches_from(
                    haystack@,
                    needle@,
                    cursor as int,
                )[k] == target[matches@.len() + k],
        ensures
            matches@.len() == target.len(),
            forall|k: int|
                0 <= k < matches@.len() ==> (#[trigger] matches@[k]).0 as int == target[k].0
                    && matches@[k].1 as int == target[k].1 && matches@[k].1 == matches@[k].0 + needle@.len() && matches@[k].0 < matches@[k].1
                    <= haystack@.len(),
        decreases haystack@.len() + 1 - cursor,
    {
        match find(haystack, cursor, haystack.len(), needle) {
            Some(p) => {
                let end = p + needle.len();
                proof {
                    let rest = matches_from(haystack@, needle@, cursor as int);
                    assert(rest[0] == (p as int, end as int));
                    assert forall|k: int|
                        0 <= k < matches_from(haystack@, needle@, end as int).len() implies matches_from(
                            haystack@,
                            needle@,
                            end as int,
                        )[k] == target[matches@.len() + 1 + k] by {
                        assert(rest[k + 1] == matches_from(haystack@, needle@, end as int)[k]);
                    }
                }
                matches.push((p, end));
                cursor = end;
            },
            None => {
                break;
            },
        }
    }
    matches
}

/// The diagnostic of an invalid snippet.
pub fn invalid(message: &str) -> (r: Diagnostic)
    ensures
        r.code == DiagnosticCode::InvalidSnippet,
        r.severity == Severity::Error,
        r.span is None,
        r.message@ == message@,
        r.related@.len() == 0,
{
    Diagnostic {
        code: DiagnosticCode::InvalidSnippet,
        severity: Severity::Error,
        message: message.to_owned(),
        span: None,
        related: Vec::new(),
    }
}

/// Assembling the parts from `k` on onto `pattern` (with `capture`
/// already found): the pattern text and the capture's range in it, or
/// `None` when the parts are invalid.
pub open spec fn assemble_from(
    parts: Seq<PartView>,
    k: int,
    pattern: Seq<char>,
    capture: Option<(int, int)>,
) -> Option<(Seq<char>, Option<(int, int)>)>
    decreases parts.len() - k,
{
    if k >= parts.len() || k < 0 {
        Some((pattern, capture))
    } else {
        match parts[k] {
            PartView::Text(t) => assemble_from(parts, k + 1, pattern + t, capture),
            PartView::Quoted { raw, decoded, terminated } => if !terminated {
                None
            } else {
                assemble_from(parts, k + 1, pattern + raw, capture)
            },
            PartView::Capture { text, terminated } => if capture is Some || !terminated || text.len()
                == 0 {
                None
            } else {
                assemble_from(
                    parts,
                    k + 1,
                    pattern + text,
                    Some((pattern.len() as int, (pattern.len() + text.len()) as int)),
                )
            },
            PartView::RangeSeparator => None,
        }
    }
}

/// Quotes delimit only when they wrap an entire snippet body or range
/// endpoint; anywhere else they are literal target text.
pub open spec fn assemble_spec(parts: Seq<PartView>) -> Option<(Seq<char>, Option<(int, int)>)> {
    if parts.len() == 1 && parts[0] is Quoted {
        match parts[0] {
            PartView::Quoted { raw, decoded, terminated } => if terminated {
                Some((decoded, None))
            } else {
                None
            },
            _ => None,
        }
    } else {
        assemble_from(parts, 0, Seq::empty(), None)
    }
}

pub open spec fn no_separator(parts: Seq<PartView>) -> bool {
    forall|k: int| 0 <= k < parts.len() ==> !(#[trigger] parts[k] is RangeSeparator)
}

/// Assembles snippet parts into a match pattern and the capture's range
/// in it.
pub fn assemble_pattern(parts: &[SnippetPart]) -> (r: Result<(Vec<char>, Option<(usize, usize)>), Diagnostic>)
    requires
        no_separator(parts_view(parts@)),
    ensures
        r is Ok <==> assemble_spec(parts_view(parts@)) is Some,
        r matches Ok((pattern, capture)) ==> {
            let spec = assemble_spec(parts_view(parts@)).unwrap();
            &&& pattern@ == spec.0
            &&& (capture matches Some((s, e)) ==> spec.1 == Some((s as int, e as int)) && s < e
                <= pattern@.len())
            &&& (capture is None ==> spec.1 is None)
        },
        r matches Err(d) ==> d.code == DiagnosticCode::InvalidSnippet && d.severity == Severity::Error
            && d.span is None,
{
    let ghost view = parts_view(parts@);
    assert(parts.len() > 0 ==> view[0] == parts@[0]@);
    if parts.len() == 1 {
        if let SnippetPart::Quoted { decoded, terminated, .. } = &parts[0] {
            if !*terminated {
                return Err(invalid("Quoted snippet text is not terminated"));
            }
            return Ok((chars_of(decoded.as_str()), None));
        }
    }
    let mut pattern: Vec<char> = Vec::new();
    let mut capture: Option<(usize, usize)> = None;
    let mut k: usize = 0;
    while k < parts.len()
        invariant
            view == parts_view(parts@),
            no_separator(view),
            k <= parts@.len(),
            !(parts@.len() == 1 && view[0] is Quoted),
            assemble_from(view, k as int, pattern@, match capture {
                Some((s, e)) => Some((s as int, e as int)),
                None => None,
            }) == assemble_spec(view),
            capture matches Some((s, e)) ==> s < e <= pattern@.len(),
        decreases parts@.len() - k,
    {
        assert(view[k as int] == parts@[k as int]@);
        match &parts[k] {
            SnippetPart::Text(text) => {
                let t = chars_of(text.as_str());
                append_chars(&mut pattern, t.as_slice());
            },
            SnippetPart::Quoted { raw, terminated, .. } => {
                if !*terminated {
                    return Err(invalid("Quoted snippet text is not terminated"));
                }
                let t = chars_of(raw.as_str());
                append_chars(&mut pattern, t.as_slice());
            },
            SnippetPart::Capture { text, terminated } => {
                if capture.is_some() {
                    return Err(invalid("A snippet may contain at most one capture"));
                }
                if !*terminated {
                    return Err(invalid("Capture is not terminated"));
                }
                let t = chars_of(text.as_str());
                if t.len() == 0 {
                    return Err(invalid("Capture may not be empty"));
                }
                let start = pattern.len();
                append_chars(&mut pattern, t.as_slice());
                capture = Some((start, pattern.len()));
            },
            SnippetPart::RangeSeparator => {
                assert(false);
                return Err(invalid("A range separator is handled by the caller"));
            },
        }
        k = k + 1;
    }
    Ok((pattern, capture))
}

/// Appends `more` to `v`.
pub fn append_chars(v: &mut Vec<char>, more: &[char])
    ensures
        final(v)@ == old(v)@ + more@,
{
    let mut k: usize = 0;
    let ghost start = v@;
    while k < more.len()
        invariant
            k <= more@.len(),
            v@ == start + more@.subrange(0, k as int),
        decreases more@.len() - k,
    {
        v.push(more[k]);
        k = k + 1;
        assert(more@.subrange(0, k as int) =~= more@.subrange(0, k - 1) + seq![more@[k - 1]]);
    }
    assert(more@.subrange(0, more@.len() as int) =~= more@);
}


/// The ranges of a list of text spans.
pub open spec fn spans_view(v: Seq<TextSpan>) -> Seq<(int, int)> {
    Seq::new(v.len(), |k: int| (v[k].start as int, v[k].end as int))
}

/// The capture's boundaries in the normalised pattern: the normalised
/// lengths of the pattern up to its start and up to its end.
pub open spec fn capture_bounds(pattern: Seq<char>, capture: (int, int), loose: bool) -> (int, int) {
    (
        normal_text(pattern.subrange(0, capture.0), loose).len() as int,
        normal_text(pattern.subrange(0, capture.1), loose).len() as int,
    )
}

/// The visible-text span each occurrence selects: the whole occurrence,
/// or the capture inside it.
pub open spec fn candidate_spans(
    map: Seq<(int, int)>,
    found: Seq<(int, int)>,
    cap: Option<(int, int)>,
) -> Seq<(int, int)> {
    Seq::new(
        found.len(),
        |k: int|
            {
                let sel = match cap {
                    Some((a, b)) => (found[k].0 + a, found[k].0 + b),
                    None => found[k],
                };
                (map[sel.0].0, map[sel.1 - 1].1)
            },
    )
}

/// The spans from `i` on that do not overlap a span kept before them.
pub open spec fn keep_disjoint(cands: Seq<(int, int)>, i: int, last_end: int) -> Seq<(int, int)>
    decreases cands.len() - i,
{
    if i >= cands.len() || i < 0 {
        Seq::empty()
    } else if cands[i].0 < last_end {
        keep_disjoint(cands, i + 1, last_end)
    } else {
        seq![cands[i]] + keep_disjoint(cands, i + 1, cands[i].1)
    }
}

/// The spans that `keep_disjoint` keeps start at or after `last_end`, and
/// each ends at or before the next one starts.
proof fn lemma_keep_disjoint_ordered(cands: Seq<(int, int)>, i: int, last_end: int)
    ensures
        ({
            let out = keep_disjoint(cands, i, last_end);
            &&& out.len() > 0 ==> out[0].0 >= last_end
            &&& forall|k: int| 0 <= k < out.len() - 1 ==> #[trigger] out[k].1 <= out[k + 1].0
        }),
    decreases cands.len() - i,
{
    if i >= cands.len() || i < 0 {
    } else if cands[i].0 < last_end {
        lemma_keep_disjoint_ordered(cands, i + 1, last_end);
    } else {
        lemma_keep_disjoint_ordered(cands, i + 1, cands[i].1);
        let rest = keep_disjoint(cands, i + 1, cands[i].1);
        let out = seq![cands[i]] + rest;
        assert(keep_disjoint(cands, i, last_end) == out);
        assert forall|k: int| 0 <= k < out.len() - 1 implies #[trigger] out[k].1 <= out[k + 1].0 by {
            if k == 0 {
                assert(out[1] == rest[0]);
            } else {
                assert(out[k] == rest[k - 1]);
                assert(out[k + 1] == rest[k]);
            }
        }
    }
}

/// The spans of `text` that a pattern selects, or `Err` when the
/// capture does not survive normalisation.
pub open spec fn pattern_spans(
    pattern: Seq<char>,
    capture: Option<(int, int)>,
    text: Seq<char>,
    loose: bool,
) -> Result<Seq<(int, int)>, ()> {
    let needle = normal_text(pattern, loose);
    if needle.len() == 0 {
        Ok(seq![(0int, text.len() as int)])
    } else {
        let cap = match capture {
            Some(c) => Some(capture_bounds(pattern, c, loose)),
            None => None,
        };
        if cap matches Some((a, b)) && (a >= b || b > needle.len()) {
            Err(())
        } else {
            Ok(
                keep_disjoint(
                    candidate_spans(
                        normal_map(text, loose),
                        matches_from(normal_text(text, loose), needle, 0),
                        cap,
                    ),
                    0,
                    0,
                ),
            )
        }
    }
}

fn push_span(v: &mut Vec<TextSpan>, start: usize, end: usize)
    ensures
        spans_view(final(v)@) == spans_view(old(v)@).push((start as int, end as int)),
{
    let ghost before = spans_view(v@);
    v.push(TextSpan { start, end });
    assert(spans_view(v@) =~= before.push((start as int, end as int)));
}

/// Matches a pattern (with the capture's character range in it) against
/// visible text.
fn match_pattern(
    pattern: &[char],
    capture: Option<(usize, usize)>,
    visible_text: &VisibleText,
    profile: Profile,
) -> (r: Result<Vec<TextSpan>, Diagnostic>)
    requires
        capture matches Some((s, e)) ==> s < e <= pattern@.len(),
    ensures
        r is Ok <==> pattern_spans(
            pattern@,
            match capture {
                Some((s, e)) => Some((s as int, e as int)),
                None => None,
            },
            visible_text.text@,
            profile.is_loose_spec(),
        ) is Ok,
        r matches Ok(v) ==> spans_view(v@) == pattern_spans(
            pattern@,
            match capture {
                Some((s, e)) => Some((s as int, e as int)),
                None => None,
            },
            visible_text.text@,
            profile.is_loose_spec(),
        )->Ok_0,
        r matches Err(d) ==> d.code == DiagnosticCode::InvalidSnippet && d.severity == Severity::Error
            && d.span is None,
{
    let ghost cap_spec = match capture {
        Some((s, e)) => Some((s as int, e as int)),
        None => None,
    };
    let loose = profile.is_loose();
    let text = chars_of(visible_text.text.as_str());
    let haystack = normalize(text.as_slice(), loose);
    let needle = normalize(pattern, loose);
    if needle.text.len() == 0 {
        let mut spans: Vec<TextSpan> = Vec::new();
        push_span(&mut spans, 0, text.len());
        assert(spans_view(spans@) =~= seq![(0int, visible_text.text@.len() as int)]);
        return Ok(spans);
    }
    let mut cap: Option<(usize, usize)> = None;
    if let Some((cs, ce)) = capture {
        let prefix = normalize(vstd::slice::slice_subrange(pattern, 0, cs), loose);
        let through = normalize(vstd::slice::slice_subrange(pattern, 0, ce), loose);
        if prefix.text.len() >= through.text.len() || through.text.len() > needle.text.len() {
            return Err(invalid("Capture boundaries collapse during text normalisation"));
        }
        cap = Some((prefix.text.len(), through.text.len()));
    }
    let ghost cap_norm = match cap {
        Some((a, b)) => Some((a as int, b as int)),
        None => None,
    };
    assert(cap_norm == match cap_spec {
        Some(c) => Some(capture_bounds(pattern@, c, loose)),
        None => None,
    });
    let found = find_matches(haystack.text.as_slice(), needle.text.as_slice());
    let ghost found_spec = matches_from(haystack.text@, needle.text@, 0);
    let ghost cands = candidate_spans(haystack_map(&haystack), found_spec, cap_norm);
    let mut spans: Vec<TextSpan> = Vec::new();
    let mut last_end: usize = 0;
    let mut k: usize = 0;
    while k < found.len()
        invariant
            k <= found@.len(),
            found@.len() == found_spec.len(),
            found_spec == matches_from(haystack.text@, needle.text@, 0),
            forall|t: int|
                0 <= t < found@.len() ==> (#[trigger] found@[t]).0 as int == found_spec[t].0
                    && found@[t].1 as int == found_spec[t].1 && found@[t].1 == found@[t].0
                    + needle.text@.len() && found@[t].0 < found@[t].1 <= haystack.text@.len(),
            normalized_wf(&haystack, nfc_spec(text@).len() as int),
            cands == candidate_spans(haystack_map(&haystack), found_spec, cap_norm),
            cap matches Some((a, b)) ==> a < b <= needle.text@.len(),
            cap_norm == match cap {
                Some((a, b)) => Some((a as int, b as int)),
                None => None,
            },
            cands.len() == found_spec.len(),
            spans_view(spans@) + keep_disjoint(cands, k as int, last_end as int) == keep_disjoint(
                cands,
                0,
                0,
            ),
        decreases found@.len() - k,
    {
        let (p, q) = found[k];
        let (sel_start, sel_end) = match cap {
            Some((a, b)) => (p + a, p + b),
            None => (p, q),
        };
        let span_start = haystack.starts[sel_start];
        let span_end = haystack.ends[sel_end - 1];
        assert(cands[k as int] == (span_start as int, span_end as int));
        if span_start >= last_end {
            push_span(&mut spans, span_start, span_end);
            last_end = span_end;
            assert(seq![cands[k as int]] + keep_disjoint(cands, k + 1, last_end as int) =~= seq![
                cands[k as int],
            ] + keep_disjoint(cands, k + 1, last_end as int));
        }
        k = k + 1;
    }
    assert(spans_view(spans@) + Seq::<(int, int)>::empty() =~= spans_view(spans@));
    Ok(spans)
}

/// The character ranges recorded in a normalised text.
pub open spec fn haystack_map(n: &NormalizedText) -> Seq<(int, int)> {
    pairs_of(n.starts@, n.ends@)
}


/// The first span from `j` on that starts at or after `min`.
pub open spec fn first_end_after(ends: Seq<(int, int)>, min: int, j: int) -> Option<int>
    decreases ends.len() - j,
{
    if j >= ends.len() || j < 0 {
        None
    } else if ends[j].0 >= min {
        Some(j)
    } else {
        first_end_after(ends, min, j + 1)
    }
}

proof fn lemma_first_end_after(ends: Seq<(int, int)>, min: int, j: int)
    ensures
        first_end_after(ends, min, j) matches Some(i) ==> j <= i < ends.len() && ends[i].0 >= min,
    decreases ends.len() - j,
{
    if !(j >= ends.len() || j < 0) && ends[j].0 < min {
        lemma_first_end_after(ends, min, j + 1);
    }
}

/// Ranges from each start match (from `i` on) that does not overlap the
/// previous range, to the first end match after it.
pub open spec fn pair_ranges(starts: Seq<(int, int)>, ends: Seq<(int, int)>, i: int, last_end: int) -> Seq<(int, int)>
    decreases starts.len() - i,
{
    if i >= starts.len() || i < 0 {
        Seq::empty()
    } else if starts[i].0 < last_end {
        pair_ranges(starts, ends, i + 1, last_end)
    } else {
        match first_end_after(ends, starts[i].1, 0) {
            Some(j) => seq![(starts[i].0, ends[j].1)] + pair_ranges(starts, ends, i + 1, ends[j].1),
            None => pair_ranges(starts, ends, i + 1, last_end),
        }
    }
}

/// The spans a range snippet selects, from its assembled endpoints.
pub open spec fn range_spans(start: Seq<char>, end: Seq<char>, text: Seq<char>, loose: bool) -> Result<
    Seq<(int, int)>,
    (),
> {
    let doc_end = text.len() as int;
    if start.len() == 0 && end.len() == 0 {
        Ok(seq![(0int, doc_end)])
    } else if start.len() == 0 {
        match pattern_spans(end, None, text, loose) {
            Ok(e) => Ok(Seq::new(e.len(), |k: int| (0int, e[k].1))),
            Err(()) => Err(()),
        }
    } else if end.len() == 0 {
        match pattern_spans(start, None, text, loose) {
            Ok(s) => Ok(Seq::new(s.len(), |k: int| (s[k].0, doc_end))),
            Err(()) => Err(()),
        }
    } else {
        match pattern_spans(start, None, text, loose) {
            Err(()) => Err(()),
            Ok(s) => match pattern_spans(end, None, text, loose) {
                Err(()) => Err(()),
                Ok(e) => Ok(pair_ranges(s, e, 0, 0)),
            },
        }
    }
}

/// Finds the first end span that starts at or after `min`.
fn find_end_after(ends: &Vec<TextSpan>, min: usize) -> (r: Option<usize>)
    ensures
        r matches Some(j) ==> first_end_after(spans_view(ends@), min as int, 0) == Some(j as int)
            && j < ends@.len(),
        r is None ==> first_end_after(spans_view(ends@), min as int, 0) is None,
{
    let ghost view = spans_view(ends@);
    let mut j: usize = 0;
    while j < ends.len()
        invariant
            j <= ends@.len(),
            view == spans_view(ends@),
            first_end_after(view, min as int, j as int) == first_end_after(view, min as int, 0),
        decreases ends@.len() - j,
    {
        if ends[j].start >= min {
            return Some(j);
        }
        j = j + 1;
    }
    None
}

/// Matches a range snippet from its assembled endpoints.
fn match_range(start: &[char], end: &[char], visible_text: &VisibleText, profile: Profile) -> (r: Result<
    Vec<TextSpan>,
    Diagnostic,
>)
    ensures
        r is Ok <==> range_spans(start@, end@, visible_text.text@, profile.is_loose_spec()) is Ok,
        r matches Ok(v) ==> spans_view(v@) == range_spans(
            start@,
            end@,
            visible_text.text@,
            profile.is_loose_spec(),
        )->Ok_0,
        r matches Err(d) ==> d.code == DiagnosticCode::InvalidSnippet && d.severity == Severity::Error
            && d.span is None,
{
    let text = chars_of(visible_text.text.as_str());
    let document_end = text.len();
    let mut ranges: Vec<TextSpan> = Vec::new();
    if start.len() == 0 && end.len() == 0 {
        push_span(&mut ranges, 0, document_end);
        assert(spans_view(ranges@) =~= seq![(0int, document_end as int)]);
        return Ok(ranges);
    }
    if start.len() == 0 {
        let ends = match_pattern(end, None, visible_text, profile)?;
        let ghost ev = spans_view(ends@);
        let mut k: usize = 0;
        while k < ends.len()
            invariant
                k <= ends@.len(),
                ev == spans_view(ends@),
                spans_view(ranges@) == Seq::new(k as nat, |t: int| (0int, ev[t].1)),
            decreases ends@.len() - k,
        {
            push_span(&mut ranges, 0, ends[k].end);
            k = k + 1;
            assert(spans_view(ranges@) =~= Seq::new(k as nat, |t: int| (0int, ev[t].1)));
        }
        return Ok(ranges);
    }
    if end.len() == 0 {
        let starts = match_pattern(start, None, visible_text, profile)?;
        let ghost sv = spans_view(starts@);
        let mut k: usize = 0;
        while k < starts.len()
            invariant
                k <= starts@.len(),
                sv == spans_view(starts@),
                document_end == visible_text.text@.len(),
                spans_view(ranges@) == Seq::new(
                    k as nat,
                    |t: int| (sv[t].0, visible_text.text@.len() as int),
                ),
            decreases starts@.len() - k,
        {
            push_span(&mut ranges, starts[k].start, document_end);
            k = k + 1;
            assert(spans_view(ranges@) =~= Seq::new(
                k as nat,
                |t: int| (sv[t].0, visible_text.text@.len() as int),
            ));
        }
        return Ok(ranges);
    }
    let starts = match_pattern(start, None, visible_text, profile)?;
    let ends = match_pattern(end, None, visible_text, profile)?;
    let ghost sv = spans_view(starts@);
    let ghost ev = spans_view(ends@);
    let mut last_end: usize = 0;
    let mut k: usize = 0;
    while k < starts.len()
        invariant
            k <= starts@.len(),
            sv == spans_view(starts@),
            ev == spans_view(ends@),
            spans_view(ranges@) + pair_ranges(sv, ev, k as int, last_end as int) == pair_ranges(
                sv,
                ev,
                0,
                0,
            ),
        decreases starts@.len() - k,
    {
        let s = starts[k];
        if s.start >= last_end {
            match find_end_after(&ends, s.end) {
                Some(j) => {
                    let e = ends[j];
                    push_span(&mut ranges, s.start, e.end);
                    last_end = e.end;
                },
                None => {},
            }
        }
        k = k + 1;
    }
    assert(spans_view(ranges@) + Seq::<(int, int)>::empty() =~= spans_view(ranges@));
    Ok(ranges)
}


/// How many range separators the parts hold from `i` on.
pub open spec fn separators_from(parts: Seq<PartView>, i: int) -> int
    decreases parts.len() - i,
{
    if i >= parts.len() || i < 0 {
        0
    } else {
        (if parts[i] is RangeSeparator {
            1int
        } else {
            0int
        }) + separators_from(parts, i + 1)
    }
}

/// The position of the first range separator from `i` on.
pub open spec fn first_separator(parts: Seq<PartView>, i: int) -> int
    decreases parts.len() - i,
{
    if i >= parts.len() || i < 0 {
        parts.len() as int
    } else if parts[i] is RangeSeparator {
        i
    } else {
        first_separator(parts, i + 1)
    }
}

pub open spec fn has_capture(parts: Seq<PartView>) -> bool {
    exists|k: int| 0 <= k < parts.len() && #[trigger] parts[k] is Capture
}

/// The spans of visible text that snippet parts select, or `Err` for an
/// invalid snippet.
pub open spec fn snippet_spans(parts: Seq<PartView>, text: Seq<char>, loose: bool) -> Result<
    Seq<(int, int)>,
    (),
> {
    let n = separators_from(parts, 0);
    if n > 1 {
        Err(())
    } else if n == 1 {
        if has_capture(parts) {
            Err(())
        } else {
            let split = first_separator(parts, 0);
            match assemble_spec(parts.subrange(0, split)) {
                None => Err(()),
                Some(a) => match assemble_spec(parts.subrange(split + 1, parts.len() as int)) {
                    None => Err(()),
                    Some(b) => range_spans(a.0, b.0, text, loose),
                },
            }
        }
    } else {
        match assemble_spec(parts) {
            Some((pattern, capture)) => pattern_spans(pattern, capture, text, loose),
            None => Err(()),
        }
    }
}

proof fn lemma_no_separators(parts: Seq<PartView>, i: int)
    requires
        0 <= i,
        separators_from(parts, i) == 0,
    ensures
        forall|k: int| i <= k < parts.len() ==> !(#[trigger] parts[k] is RangeSeparator),
    decreases parts.len() - i,
{
    if i < parts.len() {
        lemma_separators_nonneg(parts, i + 1);
        lemma_no_separators(parts, i + 1);
    }
}

proof fn lemma_separators_nonneg(parts: Seq<PartView>, i: int)
    ensures
        separators_from(parts, i) >= 0,
    decreases parts.len() - i,
{
    if !(i >= parts.len() || i < 0) {
        lemma_separators_nonneg(parts, i + 1);
    }
}

proof fn lemma_first_separator(parts: Seq<PartView>, i: int)
    requires
        0 <= i,
        separators_from(parts, i) >= 1,
    ensures
        i <= first_separator(parts, i) < parts.len(),
        parts[first_separator(parts, i)] is RangeSeparator,
        forall|k: int| i <= k < first_separator(parts, i) ==> !(#[trigger] parts[k] is RangeSeparator),
        separators_from(parts, i) == 1 + separators_from(parts, first_separator(parts, i) + 1),
    decreases parts.len() - i,
{
    if i < parts.len() && !(parts[i] is RangeSeparator) {
        lemma_first_separator(parts, i + 1);
    }
}

/// Assembles one endpoint of a range snippet.
fn endpoint_needle(parts: &[SnippetPart]) -> (r: Result<Vec<char>, Diagnostic>)
    requires
        no_separator(parts_view(parts@)),
    ensures
        r is Ok <==> assemble_spec(parts_view(parts@)) is Some,
        r matches Ok(needle) ==> needle@ == assemble_spec(parts_view(parts@))->Some_0.0,
        r matches Err(d) ==> d.code == DiagnosticCode::InvalidSnippet && d.severity == Severity::Error
            && d.span is None,
{
    let (needle, _capture) = assemble_pattern(parts)?;
    Ok(needle)
}

/// Matches snippet parts against canonical visible text.
pub fn match_snippet(parts: &[SnippetPart], visible_text: &VisibleText, profile: Profile) -> (r: Result<
    Vec<TextSpan>,
    Diagnostic,
>)
    ensures
        r is Ok <==> snippet_spans(parts_view(parts@), visible_text.text@, profile.is_loose_spec()) is Ok,
        r matches Ok(v) ==> spans_view(v@) == snippet_spans(
            parts_view(parts@),
            visible_text.text@,
            profile.is_loose_spec(),
        )->Ok_0,
        r matches Err(d) ==> d.code == DiagnosticCode::InvalidSnippet && d.severity == Severity::Error
            && d.span is None,
        separators_from(parts_view(parts@), 0) > 1 ==> (r matches Err(d) && d.message@
            == "A range snippet may contain only one range separator"@),
        separators_from(parts_view(parts@), 0) == 1 && (exists|t: int|
            0 <= t < parts@.len() && #[trigger] parts_view(parts@)[t] is Capture) ==> (r matches Err(d)
            && d.message@ == "Captures are not allowed inside range snippets"@),
{
    let ghost view = parts_view(parts@);
    let mut separators: usize = 0;
    let mut first: Option<usize> = None;
    let mut capture_seen = false;
    let mut k: usize = 0;
    while k < parts.len()
        invariant
            k <= parts@.len(),
            view == parts_view(parts@),
            separators + separators_from(view, k as int) == separators_from(view, 0),
            separators <= k,
            first is None ==> separators == 0,
            first is None ==> forall|t: int| 0 <= t < k ==> !(#[trigger] view[t] is RangeSeparator),
            first matches Some(f) ==> f < k && view[f as int] is RangeSeparator && forall|t: int|
                0 <= t < f ==> !(#[trigger] view[t] is RangeSeparator),
            capture_seen <==> exists|t: int| 0 <= t < k && #[trigger] view[t] is Capture,
        decreases parts@.len() - k,
    {
        assert(view[k as int] == parts@[k as int]@);
        match &parts[k] {
            SnippetPart::RangeSeparator => {
                separators = separators + 1;
                if first.is_none() {
                    first = Some(k);
                }
            },
            SnippetPart::Capture { .. } => {
                capture_seen = true;
            },
            _ => {},
        }
        k = k + 1;
    }
    proof {
        lemma_separators_nonneg(view, 0);
    }
    if separators > 1 {
        return Err(invalid("A range snippet may contain only one range separator"));
    }
    if separators == 1 {
        if capture_seen {
            return Err(invalid("Captures are not allowed inside range snippets"));
        }
        let split = match first {
            Some(f) => f,
            None => 0,
        };
        proof {
            lemma_first_separator(view, 0);
            let fs = first_separator(view, 0);
            if split < fs {
                assert(view[split as int] is RangeSeparator);
            }
            if fs < split {
                assert(view[fs] is RangeSeparator);
            }
            assert(split == fs);
            lemma_no_separators(view, split + 1);
        }
        let before = vstd::slice::slice_subrange(parts, 0, split);
        let after = vstd::slice::slice_subrange(parts, split + 1, parts.len());
        assert(parts_view(before@) =~= view.subrange(0, split as int));
        assert(parts_view(after@) =~= view.subrange(split + 1, view.len() as int));
        let start = endpoint_needle(before)?;
        let end = endpoint_needle(after)?;
        return match_range(start.as_slice(), end.as_slice(), visible_text, profile);
    }
    proof {
        lemma_no_separators(view, 0);
    }
    let (pattern, capture) = assemble_pattern(parts)?;
    match_pattern(pattern.as_slice(), capture, visible_text, profile)
}


/// The matches of a snippet without a range separator never overlap: in
/// the order they are reported, each ends at or before the next one
/// starts.
pub proof fn lemma_plain_matches_do_not_overlap(parts: Seq<PartView>, text: Seq<char>, loose: bool)
    requires
        separators_from(parts, 0) == 0,
        snippet_spans(parts, text, loose) is Ok,
    ensures
        ({
            let spans = snippet_spans(parts, text, loose)->Ok_0;
            forall|k: int| 0 <= k < spans.len() - 1 ==> #[trigger] spans[k].1 <= spans[k + 1].0
        }),
{
    let (pattern, capture) = assemble_spec(parts)->Some_0;
    let needle = normal_text(pattern, loose);
    if needle.len() > 0 {
        let cap = match capture {
            Some(c) => Some(capture_bounds(pattern, c, loose)),
            None => None,
        };
        lemma_keep_disjoint_ordered(
            candidate_spans(normal_map(text, loose), matches_from(normal_text(text, loose), needle, 0), cap),
            0,
            0,
        );
    }
}


/// A typographic single quotation mark: U+2018, U+2019, U+201A or U+201B.
pub open spec fn is_typographic_single_quote(c: char) -> bool {
    c == '\u{2018}' || c == '\u{2019}' || c == '\u{201a}' || c == '\u{201b}'
}

/// A typographic double quotation mark: U+201C to U+201F.
pub open spec fn is_typographic_double_quote(c: char) -> bool {
    c == '\u{201c}' || c == '\u{201d}' || c == '\u{201e}' || c == '\u{201f}'
}

/// A typographic dash or minus: U+2010 to U+2014 and U+2212.
pub open spec fn is_typographic_dash(c: char) -> bool {
    c == '\u{2010}' || c == '\u{2011}' || c == '\u{2012}' || c == '\u{2013}' || c == '\u{2014}'
        || c == '\u{2212}'
}

/// A Latin ligature: U+FB00 to U+FB06.
pub open spec fn is_latin_ligature(c: char) -> bool {
    c == '\u{fb00}' || c == '\u{fb01}' || c == '\u{fb02}' || c == '\u{fb03}' || c == '\u{fb04}'
        || c == '\u{fb05}' || c == '\u{fb06}'
}

/// A character that loose matching reads as plain ASCII: a typographic
/// quotation mark, dash or minus, or a Latin ligature.
pub open spec fn is_typographic(c: char) -> bool {
    is_typographic_single_quote(c) || is_typographic_double_quote(c) || is_typographic_dash(c)
        || is_latin_ligature(c)
}

/// What a character is replaced by under loose matching holds no
/// typographic character.
proof fn lemma_replacement_is_plain(c: char)
    ensures
        forall|k: int|
            0 <= k < replacement_of(c, true).len() ==> !is_typographic(
                #[trigger] replacement_of(c, true)[k],
            ),
{
    let r = replacement_of(c, true);
    assert forall|k: int| 0 <= k < r.len() implies !is_typographic(#[trigger] r[k]) by {
        if loose_replacement_spec(c) is None {
            assert(r == seq![c]);
            assert(!is_typographic(c));
        } else if is_typographic_single_quote(c) {
            assert(r == seq!['\'']);
        } else if c == '\u{2010}' || c == '\u{2011}' || c == '\u{2012}' || c == '\u{2013}' || c
            == '\u{2014}' || c == '\u{2212}' {
            assert(r == seq!['-']);
        } else if c == '\u{201c}' || c == '\u{201d}' || c == '\u{201e}' || c == '\u{201f}' {
            assert(r == seq!['"']);
        } else if c == '\u{fb00}' {
            assert(r == seq!['f', 'f']);
        } else if c == '\u{fb01}' {
            assert(r == seq!['f', 'i']);
        } else if c == '\u{fb02}' {
            assert(r == seq!['f', 'l']);
        } else if c == '\u{fb03}' {
            assert(r == seq!['f', 'f', 'i']);
        } else if c == '\u{fb04}' {
            assert(r == seq!['f', 'f', 'l']);
        } else {
            assert(r == seq!['s', 't']);
        }
    }
}

/// Under loose matching no typographic quotation mark, dash, minus or
/// ligature survives normalisation: the normalised text of any input
/// holds none.
pub proof fn lemma_loose_text_has_no_typographic_characters(s: Seq<char>, i: int, pending: bool)
    ensures
        forall|k: int|
            0 <= k < normal_from(s, i, true, pending).len() ==> !is_typographic(
                #[trigger] normal_from(s, i, true, pending)[k],
            ),
    decreases s.len() - i,
{
    if i >= s.len() {
        if pending {
            assert(normal_from(s, i, true, pending) == seq![' ']);
        } else {
            assert(normal_from(s, i, true, pending).len() == 0);
        }
    } else if is_ws_spec(s[i]) {
        lemma_loose_text_has_no_typographic_characters(s, i + 1, true);
        assert(normal_from(s, i, true, pending) == normal_from(s, i + 1, true, true));
    } else {
        lemma_loose_text_has_no_typographic_characters(s, i + 1, false);
        let head: Seq<char> = if pending {
            seq![' ']
        } else {
            Seq::empty()
        };
        lemma_replacement_is_plain(s[i]);
        let rep = replacement_of(s[i], true);
        let rest = normal_from(s, i + 1, true, false);
        let all = normal_from(s, i, true, pending);
        assert(all == head + rep + rest);
        assert forall|k: int| 0 <= k < all.len() implies !is_typographic(#[trigger] all[k]) by {
            if k < head.len() {
                assert(all[k] == head[k]);
            } else if k < head.len() + rep.len() {
                assert(all[k] == rep[k - head.len()]);
            } else {
                assert(all[k] == rest[k - head.len() - rep.len()]);
            }
        }
    }
}

/// Under loose matching a typographic single quotation mark reads as an
/// ASCII apostrophe: outside a whitespace run it contributes exactly `'`.
pub proof fn lemma_loose_single_quote_is_apostrophe(s: Seq<char>, i: int)
    requires
        0 <= i < s.len(),
        is_typographic_single_quote(s[i]),
    ensures
        normal_from(s, i, true, false) == seq!['\''] + normal_from(s, i + 1, true, false),
{
    assert(!is_ws_spec(s[i]));
    assert(Seq::<char>::empty() + seq!['\''] =~= seq!['\'']);
}


/// The loose normalised text of any input holds no typographic quotation
/// mark, dash, minus or ligature.
pub proof fn lemma_loose_normal_text_has_no_typographic_characters(input: Seq<char>)
    ensures
        forall|k: int|
            0 <= k < normal_text(input, true).len() ==> !is_typographic(
                #[trigger] normal_text(input, true)[k],
            ),
{
    lemma_loose_text_has_no_typographic_characters(nfc_spec(input), 0, false);
}


/// Under loose matching a typographic double quotation mark reads as `"`.
pub proof fn lemma_loose_double_quote_is_quote(s: Seq<char>, i: int)
    requires
        0 <= i < s.len(),
        is_typographic_double_quote(s[i]),
    ensures
        normal_from(s, i, true, false) == seq!['"'] + normal_from(s, i + 1, true, false),
{
    assert(!is_ws_spec(s[i]));
    assert(Seq::<char>::empty() + seq!['"'] =~= seq!['"']);
}

/// Under loose matching a typographic dash or minus reads as `-`.
pub proof fn lemma_loose_dash_is_hyphen(s: Seq<char>, i: int)
    requires
        0 <= i < s.len(),
        is_typographic_dash(s[i]),
    ensures
        normal_from(s, i, true, false) == seq!['-'] + normal_from(s, i + 1, true, false),
{
    assert(!is_ws_spec(s[i]));
    assert(Seq::<char>::empty() + seq!['-'] =~= seq!['-']);
}


/// `find_spec` finds the first occurrence: none starts before it, and
/// none at all when it finds nothing.
proof fn lemma_find_first(h: Seq<char>, from: int, n: Seq<char>)
    requires
        0 <= from,
    ensures
        forall|q: int|
            from <= q && q + n.len() <= h.len() && #[trigger] h.subrange(q, q + n.len()) == n ==> (find_spec(
                h,
                from,
                h.len() as int,
                n,
            ) matches Some(p) && p <= q),
    decreases h.len() + 1 - from,
{
    if !(from + n.len() > h.len()) && !occurs_at(h, from, h.len() as int, n) {
        lemma_find_first(h, from + 1, n);
    }
}

/// The occurrences counted and matched are exactly the leftmost
/// non-overlapping occurrences of `needle`: each is an occurrence, each
/// ends before the next begins, and every occurrence at or after `from`
/// lies within one of them.
pub proof fn lemma_matches_are_leftmost_occurrences(haystack: Seq<char>, needle: Seq<char>, from: int)
    requires
        needle.len() > 0,
        0 <= from,
    ensures
        ({
            let m = matches_from(haystack, needle, from);
            &&& forall|k: int|
                0 <= k < m.len() ==> from <= (#[trigger] m[k]).0 && m[k].1 == m[k].0 + needle.len()
                    && m[k].1 <= haystack.len() && haystack.subrange(m[k].0, m[k].1) == needle
            &&& forall|k: int| 0 <= k < m.len() - 1 ==> (#[trigger] m[k]).1 <= m[k + 1].0
            &&& forall|q: int|
                from <= q && q + needle.len() <= haystack.len() && #[trigger] haystack.subrange(q, q + needle.len())
                    == needle ==> exists|k: int| 0 <= k < m.len() && (#[trigger] m[k]).0 <= q < m[k].1
        }),
    decreases haystack.len() + 1 - from,
{
    let m = matches_from(haystack, needle, from);
    lemma_find_bounds(haystack, from, haystack.len() as int, needle);
    lemma_find_first(haystack, from, needle);
    match find_spec(haystack, from, haystack.len() as int, needle) {
        Some(p) => {
            let next = p + needle.len();
            lemma_matches_are_leftmost_occurrences(haystack, needle, next);
            let rest = matches_from(haystack, needle, next);
            assert(m == seq![(p, next)] + rest);
            assert forall|k: int|
                0 <= k < m.len() implies from <= (#[trigger] m[k]).0 && m[k].1 == m[k].0 + needle.len()
                    && m[k].1 <= haystack.len() && haystack.subrange(m[k].0, m[k].1) == needle by {
                if k > 0 {
                    assert(m[k] == rest[k - 1]);
                }
            }
            assert forall|k: int| 0 <= k < m.len() - 1 implies (#[trigger] m[k]).1 <= m[k + 1].0 by {
                if k == 0 {
                    if rest.len() > 0 {
                        assert(m[1] == rest[0]);
                    }
                } else {
                    assert(m[k] == rest[k - 1]);
                    assert(m[k + 1] == rest[k]);
                }
            }
            assert forall|q: int|
                from <= q && q + needle.len() <= haystack.len() && #[trigger] haystack.subrange(q, q + needle.len())
                    == needle implies exists|k: int| 0 <= k < m.len() && (#[trigger] m[k]).0 <= q < m[k].1 by {
                if q < next {
                    assert(m[0] == (p, next));
                } else {
                    let j = choose|j: int| 0 <= j < rest.len() && (#[trigger] rest[j]).0 <= q < rest[j].1;
                    assert(m[j + 1] == rest[j]);
                }
            }
        },
        None => {},
    }
}

} // verus!
