//! Canonical visible text of a target document.
use vstd::prelude::*;
use pulldown_cmark::{Event, Tag};
use unicode_normalization::UnicodeNormalization;
use crate::diagnostic::{Diagnostic, DiagnosticCode, Severity, SourceSpan};
use crate::text::{chars_equal, chars_of, same_str, string_of};

verus! {

#[derive(Debug, Clone, Copy, PartialEq, Eq, Structural)]
pub enum Profile {
    Plain,
    PlainLoose,
    Markdown,
    MarkdownLoose,
}

/// The profile named `name`.
pub open spec fn profile_named(name: Seq<char>) -> Option<Profile> {
    if name == seq!['p', 'l', 'a', 'i', 'n'] {
        Some(Profile::Plain)
    } else if name == seq!['p', 'l', 'a', 'i', 'n', '-', 'l', 'o', 'o', 's', 'e'] {
        Some(Profile::PlainLoose)
    } else if name == seq!['m', 'a', 'r', 'k', 'd', 'o', 'w', 'n'] {
        Some(Profile::Markdown)
    } else if name == seq!['m', 'a', 'r', 'k', 'd', 'o', 'w', 'n', '-', 'l', 'o', 'o', 's', 'e'] {
        Some(Profile::MarkdownLoose)
    } else {
        None
    }
}


impl Profile {
    pub fn from_name(name: &str) -> (r: Option<Profile>)
        ensures
            r == profile_named(name@),
    {
        let chars = chars_of(name);
        let plain = ['p', 'l', 'a', 'i', 'n'];
        let plain_loose = ['p', 'l', 'a', 'i', 'n', '-', 'l', 'o', 'o', 's', 'e'];
        let markdown = ['m', 'a', 'r', 'k', 'd', 'o', 'w', 'n'];
        let markdown_loose = ['m', 'a', 'r', 'k', 'd', 'o', 'w', 'n', '-', 'l', 'o', 'o', 's', 'e'];
        proof {
            assert(plain@ =~= seq!['p', 'l', 'a', 'i', 'n']);
            assert(plain_loose@ =~= seq!['p', 'l', 'a', 'i', 'n', '-', 'l', 'o', 'o', 's', 'e']);
            assert(markdown@ =~= seq!['m', 'a', 'r', 'k', 'd', 'o', 'w', 'n']);
            assert(markdown_loose@ =~= seq![
                'm',
                'a',
                'r',
                'k',
                'd',
                'o',
                'w',
                'n',
                '-',
                'l',
                'o',
                'o',
                's',
                'e',
            ]);
        }
        if chars_equal(chars.as_slice(), &plain) {
            Some(Profile::Plain)
        } else if chars_equal(chars.as_slice(), &plain_loose) {
            Some(Profile::PlainLoose)
        } else if chars_equal(chars.as_slice(), &markdown) {
            Some(Profile::Markdown)
        } else if chars_equal(chars.as_slice(), &markdown_loose) {
            Some(Profile::MarkdownLoose)
        } else {
            None
        }
    }

    /// Whether the profile matches loosely.
    pub open spec fn is_loose_spec(self) -> bool {
        self == Profile::PlainLoose || self == Profile::MarkdownLoose
    }

    /// Whether the profile matches loosely.
    pub fn is_loose(self) -> (r: bool)
        ensures
            r == self.is_loose_spec(),
    {
        self == Profile::PlainLoose || self == Profile::MarkdownLoose
    }
}

#[derive(Debug, Clone, PartialEq, Eq)]
pub struct VisibleText {
    pub text: String,
    pub normalisation: String,
    pub profile: Profile,
    pub diagnostics: Vec<Diagnostic>,
}

/// Unicode Normalization Form C of `text`.
pub uninterp spec fn nfc_spec(text: Seq<char>) -> Seq<char>;

/// The NFC normalisation of `text`, computed by `unicode-normalization`.
/// Its result is in NFC, so normalising it again gives it back.
#[verifier::external_body]
pub(crate) fn nfc(text: &[char]) -> (r: Vec<char>)
    ensures
        r@ == nfc_spec(text@),
        nfc_spec(r@) == r@,
{
    text.iter().copied().nfc().collect()
}

/// The canonical name of NFC normalisation.
pub fn nfc_name() -> (r: String)
    ensures
        r@ == seq!['N', 'F', 'C'],
{
    let r = crate::text::string_of(&['N', 'F', 'C']);
    proof {
        assert(['N', 'F', 'C']@ =~= seq!['N', 'F', 'C']);
    }
    r
}


#[verifier::external_type_specification]
#[verifier::external_body]
pub struct ExMarkdownEvent<'a>(Event<'a>);

#[verifier::external_type_specification]
#[verifier::external_body]
pub struct ExMarkdownTag<'a>(Tag<'a>);

/// A pulldown-cmark event as plain values. Tags are named by the `Debug`
/// form of the tag's end (`Paragraph`, `Heading(H1)`, `TableCell` ...);
/// the start of a footnote definition also carries its label.
#[derive(Debug, Clone, PartialEq, Eq)]
pub enum MdEvent {
    Start(String, Option<String>),
    End(String),
    Text(String),
    Code(String),
    InlineMath(String),
    DisplayMath(String),
    Html(String),
    InlineHtml(String),
    FootnoteReference(String),
    SoftBreak,
    HardBreak,
    Rule,
    TaskListMarker(bool),
}

/// A Markdown event with the byte range of the source it came from.
#[derive(Debug, Clone, PartialEq, Eq)]
pub struct MdItem {
    pub event: MdEvent,
    pub start: usize,
    pub end: usize,
}

/// The events that pulldown-cmark (footnotes and tables enabled) reads in
/// `source`, in order, each as its view and its source byte range.
pub uninterp spec fn markdown_views(source: Seq<char>) -> Seq<MdView>;

/// The events of `source` under pulldown-cmark with footnotes and tables
/// enabled, each converted to plain values with its source byte range.
/// What they are is named, not stated: `markdown_views`.
#[verifier::external_body]
fn markdown_events(source: &str) -> (r: Vec<MdItem>)
    ensures
        md_views(r@) == markdown_views(source@),
{
    let options = pulldown_cmark::Options::ENABLE_FOOTNOTES | pulldown_cmark::Options::ENABLE_TABLES;
    let events = pulldown_cmark::Parser::new_ext(source, options).into_offset_iter();
    events.map(|(event, range)| MdItem { event: markdown_event(event), start: range.start, end: range.end }).collect()
}

/// The start of a tag: the name of its block (`Debug` of `Tag::to_end`)
/// and, for a footnote definition, its label.
#[verifier::external_body]
fn markdown_start(tag: Tag<'_>) -> MdEvent {
    let name = format!("{:?}", tag.to_end());
    match tag {
        Tag::FootnoteDefinition(label) => MdEvent::Start(name, Some(label.to_string())),
        _ => MdEvent::Start(name, None),
    }
}

/// One pulldown-cmark event as plain values, variant for variant.
#[verifier::external_body]
fn markdown_event(event: Event<'_>) -> MdEvent {
    match event {
        Event::Start(tag) => markdown_start(tag),
        Event::End(end) => MdEvent::End(format!("{:?}", end)),
        Event::Text(v) => MdEvent::Text(v.to_string()),
        Event::Code(v) => MdEvent::Code(v.to_string()),
        Event::InlineMath(v) => MdEvent::InlineMath(v.to_string()),
        Event::DisplayMath(v) => MdEvent::DisplayMath(v.to_string()),
        Event::Html(v) => MdEvent::Html(v.to_string()),
        Event::InlineHtml(v) => MdEvent::InlineHtml(v.to_string()),
        Event::FootnoteReference(v) => MdEvent::FootnoteReference(v.to_string()),
        Event::SoftBreak => MdEvent::SoftBreak,
        Event::HardBreak => MdEvent::HardBreak,
        Event::Rule => MdEvent::Rule,
        Event::TaskListMarker(b) => MdEvent::TaskListMarker(b),
    }
}

/// The Markdown events of `source` as plain values, in order, each with
/// its source byte range.
pub fn markdown_items(source: &str) -> (r: Vec<MdItem>)
    ensures
        md_views(r@) == markdown_views(source@),
{
    markdown_events(source)
}


/// A Markdown event with its strings seen as characters.
pub enum MdEventView {
    Start(Seq<char>, Option<Seq<char>>),
    End(Seq<char>),
    Text(Seq<char>),
    Html,
    FootnoteReference(Seq<char>),
    Break,
    Other,
}

impl View for MdEvent {
    type V = MdEventView;

    open spec fn view(&self) -> MdEventView {
        match self {
            MdEvent::Start(name, label) => MdEventView::Start(
                name@,
                match label {
                    Some(l) => Some(l@),
                    None => None,
                },
            ),
            MdEvent::End(name) => MdEventView::End(name@),
            MdEvent::Text(v) => MdEventView::Text(v@),
            MdEvent::Code(v) => MdEventView::Text(v@),
            MdEvent::Html(_) => MdEventView::Html,
            MdEvent::InlineHtml(_) => MdEventView::Html,
            MdEvent::FootnoteReference(l) => MdEventView::FootnoteReference(l@),
            MdEvent::SoftBreak => MdEventView::Break,
            MdEvent::HardBreak => MdEventView::Break,
            _ => MdEventView::Other,
        }
    }
}

/// A Markdown item read as its event's view and its byte range.
pub type MdView = (MdEventView, usize, usize);

/// The items read as views.
pub open spec fn md_views(items: Seq<MdItem>) -> Seq<MdView> {
    Seq::new(items.len(), |k: int| (items[k].event@, items[k].start, items[k].end))
}

/// The events of item views.
pub open spec fn events_of(views: Seq<MdView>) -> Seq<MdEventView> {
    Seq::new(views.len(), |k: int| views[k].0)
}

pub open spec fn events_view(items: Seq<MdItem>) -> Seq<MdEventView> {
    events_of(md_views(items))
}

pub open spec fn footnote_name() -> Seq<char> {
    seq!['F', 'o', 'o', 't', 'n', 'o', 't', 'e', 'D', 'e', 'f', 'i', 'n', 'i', 't', 'i', 'o', 'n']
}

/// The start of a footnote definition.
pub open spec fn opens_footnote(e: MdEventView) -> bool {
    e matches MdEventView::Start(_, Some(_))
}

/// The end of a footnote definition.
pub open spec fn closes_footnote(e: MdEventView) -> bool {
    e matches MdEventView::End(name) && name == footnote_name()
}

/// Whether a block named `name` is delimited by line breaks: paragraphs,
/// headings, block quotes, code blocks, list items and table rows.
pub open spec fn is_line_block(name: Seq<char>) -> bool {
    ||| name == seq!['P', 'a', 'r', 'a', 'g', 'r', 'a', 'p', 'h']
    ||| (name.len() >= 8 && name.take(8) == seq!['H', 'e', 'a', 'd', 'i', 'n', 'g', '('])
    ||| (name.len() >= 11 && name.take(11) == seq!['B', 'l', 'o', 'c', 'k', 'Q', 'u', 'o', 't', 'e', '('])
    ||| name == seq!['C', 'o', 'd', 'e', 'B', 'l', 'o', 'c', 'k']
    ||| name == seq!['I', 't', 'e', 'm']
    ||| name == seq!['T', 'a', 'b', 'l', 'e']
    ||| name == seq!['T', 'a', 'b', 'l', 'e', 'H', 'e', 'a', 'd']
    ||| name == seq!['T', 'a', 'b', 'l', 'e', 'R', 'o', 'w']
}

pub open spec fn cell_name() -> Seq<char> {
    seq!['T', 'a', 'b', 'l', 'e', 'C', 'e', 'l', 'l']
}

/// The index of the end of the footnote definition whose nesting depth
/// is `depth` before event `j`, or the number of events.
pub open spec fn footnote_end_from(events: Seq<MdEventView>, j: int, depth: int) -> int
    decreases events.len() - j,
{
    if j >= events.len() || j < 0 {
        events.len() as int
    } else if opens_footnote(events[j]) {
        footnote_end_from(events, j + 1, depth + 1)
    } else if closes_footnote(events[j]) {
        if depth - 1 == 0 {
            j
        } else {
            footnote_end_from(events, j + 1, depth - 1)
        }
    } else {
        footnote_end_from(events, j + 1, depth)
    }
}

pub proof fn lemma_footnote_end(events: Seq<MdEventView>, j: int, depth: int)
    requires
        0 <= j,
    ensures
        j <= footnote_end_from(events, j, depth) <= events.len() || j > events.len(),
    decreases events.len() - j,
{
    if j < events.len() {
        if opens_footnote(events[j]) {
            lemma_footnote_end(events, j + 1, depth + 1);
        } else if closes_footnote(events[j]) {
            if depth - 1 != 0 {
                lemma_footnote_end(events, j + 1, depth - 1);
            }
        } else {
            lemma_footnote_end(events, j + 1, depth);
        }
    }
}

fn chars_are(a: &[char], b: &[char]) -> (r: bool)
    ensures
        r == (a@ == b@),
{
    chars_equal(a, b)
}

fn starts_with_chars(a: &[char], b: &[char]) -> (r: bool)
    ensures
        r == (a@.len() >= b@.len() && a@.take(b@.len() as int) == b@),
{
    if a.len() < b.len() {
        return false;
    }
    let mut k: usize = 0;
    while k < b.len()
        invariant
            a@.len() >= b@.len(),
            k <= b@.len(),
            forall|t: int| 0 <= t < k ==> a@[t] == b@[t],
        decreases b@.len() - k,
    {
        if a[k] != b[k] {
            assert(a@.take(b@.len() as int)[k as int] != b@[k as int]);
            return false;
        }
        k = k + 1;
    }
    assert(a@.take(b@.len() as int) =~= b@);
    true
}

fn opens_footnote_exec(e: &MdEvent) -> (r: bool)
    ensures
        r == opens_footnote(e@),
{
    match e {
        MdEvent::Start(_, Some(_)) => true,
        _ => false,
    }
}

fn closes_footnote_exec(e: &MdEvent) -> (r: bool)
    ensures
        r == closes_footnote(e@),
{
    match e {
        MdEvent::End(name) => {
            let f = ['F', 'o', 'o', 't', 'n', 'o', 't', 'e', 'D', 'e', 'f', 'i', 'n', 'i', 't', 'i', 'o', 'n'];
            assert(f@ =~= footnote_name());
            chars_are(chars_of(name.as_str()).as_slice(), &f)
        },
        _ => false,
    }
}

fn is_line_block_exec(name: &String) -> (r: bool)
    ensures
        r == is_line_block(name@),
{
    let n = chars_of(name.as_str());
    let paragraph = ['P', 'a', 'r', 'a', 'g', 'r', 'a', 'p', 'h'];
    let heading = ['H', 'e', 'a', 'd', 'i', 'n', 'g', '('];
    let quote = ['B', 'l', 'o', 'c', 'k', 'Q', 'u', 'o', 't', 'e', '('];
    let code = ['C', 'o', 'd', 'e', 'B', 'l', 'o', 'c', 'k'];
    let item = ['I', 't', 'e', 'm'];
    let table = ['T', 'a', 'b', 'l', 'e'];
    let head = ['T', 'a', 'b', 'l', 'e', 'H', 'e', 'a', 'd'];
    let row = ['T', 'a', 'b', 'l', 'e', 'R', 'o', 'w'];
    assert(paragraph@ =~= seq!['P', 'a', 'r', 'a', 'g', 'r', 'a', 'p', 'h']);
    assert(heading@ =~= seq!['H', 'e', 'a', 'd', 'i', 'n', 'g', '(']);
    assert(quote@ =~= seq!['B', 'l', 'o', 'c', 'k', 'Q', 'u', 'o', 't', 'e', '(']);
    assert(code@ =~= seq!['C', 'o', 'd', 'e', 'B', 'l', 'o', 'c', 'k']);
    assert(item@ =~= seq!['I', 't', 'e', 'm']);
    assert(table@ =~= seq!['T', 'a', 'b', 'l', 'e']);
    assert(head@ =~= seq!['T', 'a', 'b', 'l', 'e', 'H', 'e', 'a', 'd']);
    assert(row@ =~= seq!['T', 'a', 'b', 'l', 'e', 'R', 'o', 'w']);
    chars_are(n.as_slice(), &paragraph) || starts_with_chars(n.as_slice(), &heading)
        || starts_with_chars(n.as_slice(), &quote) || chars_are(n.as_slice(), &code) || chars_are(
        n.as_slice(),
        &item,
    ) || chars_are(n.as_slice(), &table) || chars_are(n.as_slice(), &head) || chars_are(
        n.as_slice(),
        &row,
    )
}

fn is_cell(name: &String) -> (r: bool)
    ensures
        r == (name@ == cell_name()),
{
    let cell = ['T', 'a', 'b', 'l', 'e', 'C', 'e', 'l', 'l'];
    assert(cell@ =~= cell_name());
    chars_are(chars_of(name.as_str()).as_slice(), &cell)
}

/// The index of the event that ends the footnote definition opened at
/// `start`.
fn footnote_definition_end(items: &[MdItem], start: usize) -> (r: usize)
    requires
        start < items@.len(),
        opens_footnote(events_view(items@)[start as int]),
    ensures
        r == footnote_end_from(events_view(items@), start as int, 0),
        start <= r <= items@.len(),
{
    let ghost ev = events_view(items@);
    proof {
        lemma_footnote_end(ev, start as int, 0);
    }
    let mut depth: usize = 0;
    let mut j = start;
    while j < items.len()
        invariant
            start <= j <= items@.len(),
            start < items@.len(),
            ev == events_view(items@),
            opens_footnote(ev[start as int]),
            j > start ==> depth >= 1,
            j == start ==> depth == 0,
            footnote_end_from(ev, j as int, depth as int) == footnote_end_from(ev, start as int, 0),
            depth <= j - start,
        decreases items@.len() - j,
    {
        assert(ev[j as int] == items@[j as int].event@);
        if opens_footnote_exec(&items[j].event) {
            depth = depth + 1;
        } else if closes_footnote_exec(&items[j].event) {
            if depth == 1 {
                proof {
                    lemma_footnote_end(ev, j as int, depth as int);
                }
                return j;
            }
            depth = depth - 1;
        }
        j = j + 1;
    }
    items.len()
}


pub open spec fn defs_view(defs: Seq<(String, usize, usize)>) -> Seq<(Seq<char>, int, int)> {
    Seq::new(defs.len(), |k: int| (defs[k].0@, defs[k].1 as int, defs[k].2 as int))
}

pub open spec fn strings_view(v: Seq<String>) -> Seq<Seq<char>> {
    Seq::new(v.len(), |k: int| v[k]@)
}

/// The body range of the first definition of `label` from `k` on.
pub open spec fn lookup_from(defs: Seq<(Seq<char>, int, int)>, label: Seq<char>, k: int) -> Option<(int, int)>
    decreases defs.len() - k,
{
    if k >= defs.len() || k < 0 {
        None
    } else if defs[k].0 == label {
        Some((defs[k].1, defs[k].2))
    } else {
        lookup_from(defs, label, k + 1)
    }
}

/// The footnote definitions from event `i` on, after `defs`: each label
/// with the event range of its body; the first definition of a label
/// wins.
pub open spec fn collect_from(events: Seq<MdEventView>, i: int, defs: Seq<(Seq<char>, int, int)>) -> Seq<(Seq<char>, int, int)>
    decreases events.len() - i,
{
    if i >= events.len() || i < 0 {
        defs
    } else {
        match events[i] {
            MdEventView::Start(_, Some(label)) => {
                let end = footnote_end_from(events, i, 0);
                proof {
                    lemma_footnote_end(events, i, 0);
                }
                let more = if lookup_from(defs, label, 0) is Some {
                    defs
                } else {
                    defs.push((label, i + 1, end))
                };
                if end >= events.len() {
                    more
                } else {
                    collect_from(events, end + 1, more)
                }
            },
            _ => collect_from(events, i + 1, defs),
        }
    }
}

pub open spec fn newline_spec(text: Seq<char>) -> Seq<char> {
    if text.len() > 0 && text.last() != '\n' {
        text.push('\n')
    } else {
        text
    }
}

pub open spec fn cell_separator_spec(text: Seq<char>) -> Seq<char> {
    if text.len() > 0 && text.last() != '\n' && text.last() != ' ' {
        text.push(' ')
    } else {
        text
    }
}

/// The visible text and omitted-HTML ranges after rendering events
/// `i..hi` onto `text` and `html`. Footnote references insert their
/// definition's text, delimited like a block, unless that footnote is
/// already being inserted.
pub open spec fn render_from(
    items: Seq<MdView>,
    i: int,
    hi: int,
    defs: Seq<(Seq<char>, int, int)>,
    inlining: Seq<Seq<char>>,
    text: Seq<char>,
    html: Seq<(int, int)>,
) -> (Seq<char>, Seq<(int, int)>)
    decreases defs.len() - inlining.len(), hi - i,
{
    if i >= hi || i < 0 || i >= items.len() {
        (text, html)
    } else {
        let e = items[i].0;
        if opens_footnote(e) {
            let end = footnote_end_from(events_of(items), i, 0);
            proof {
                lemma_footnote_end(events_of(items), i, 0);
            }
            if end >= items.len() || end + 1 >= hi {
                (text, html)
            } else {
                render_from(items, end + 1, hi, defs, inlining, text, html)
            }
        } else {
            match e {
                MdEventView::FootnoteReference(label) => match lookup_from(defs, label, 0) {
                    Some((lo, body_end)) => if !inlining.contains(label) && inlining.len() < defs.len() {
                        let inner = render_from(items, lo, body_end, defs, inlining.push(label), newline_spec(text), html);
                        render_from(items, i + 1, hi, defs, inlining, newline_spec(inner.0), inner.1)
                    } else {
                        render_from(items, i + 1, hi, defs, inlining, text, html)
                    },
                    None => render_from(items, i + 1, hi, defs, inlining, text, html),
                },
                MdEventView::Text(v) => render_from(items, i + 1, hi, defs, inlining, text + v, html),
                MdEventView::Break => render_from(items, i + 1, hi, defs, inlining, newline_spec(text), html),
                MdEventView::Start(name, _) => if is_line_block(name) {
                    render_from(items, i + 1, hi, defs, inlining, newline_spec(text), html)
                } else if name == cell_name() {
                    render_from(items, i + 1, hi, defs, inlining, cell_separator_spec(text), html)
                } else {
                    render_from(items, i + 1, hi, defs, inlining, text, html)
                },
                MdEventView::End(name) => if is_line_block(name) {
                    render_from(items, i + 1, hi, defs, inlining, newline_spec(text), html)
                } else {
                    render_from(items, i + 1, hi, defs, inlining, text, html)
                },
                MdEventView::Html => render_from(
                    items,
                    i + 1,
                    hi,
                    defs,
                    inlining,
                    text,
                    html.push((items[i].1 as int, items[i].2 as int)),
                ),
                MdEventView::Other => render_from(items, i + 1, hi, defs, inlining, text, html),
            }
        }
    }
}

/// Maps each footnote label to the event range of its definition body
/// (exclusive of the surrounding start and end). The first definition of
/// a label wins; later duplicates are ignored.
fn collect_footnote_definitions(items: &[MdItem]) -> (r: Vec<(String, usize, usize)>)
    ensures
        defs_view(r@) == collect_from(events_view(items@), 0, Seq::empty()),
{
    let ghost ev = events_view(items@);
    let mut defs: Vec<(String, usize, usize)> = Vec::new();
    let mut index: usize = 0;
    assert(defs_view(defs@) =~= Seq::<(Seq<char>, int, int)>::empty());
    while index < items.len()
        invariant
            index <= items@.len(),
            ev == events_view(items@),
            collect_from(ev, index as int, defs_view(defs@)) == collect_from(ev, 0, Seq::empty()),
        decreases items@.len() - index,
    {
        assert(ev[index as int] == items@[index as int].event@);
        match &items[index].event {
            MdEvent::Start(_, Some(label)) => {
                let end = footnote_definition_end(items, index);
                let ghost dv = defs_view(defs@);
                if lookup_def(&defs, label).is_none() {
                    defs.push((label.clone(), index + 1, end));
                    assert(defs_view(defs@) =~= dv.push((label@, index + 1, end as int)));
                }
                if end >= items.len() {
                    return defs;
                }
                index = end + 1;
            },
            _ => {
                index = index + 1;
            },
        }
    }
    defs
}


/// The body range of the first definition of `label`.
fn lookup_def(defs: &Vec<(String, usize, usize)>, label: &String) -> (r: Option<(usize, usize)>)
    ensures
        match r {
            Some((a, b)) => lookup_from(defs_view(defs@), label@, 0) == Some((a as int, b as int)),
            None => lookup_from(defs_view(defs@), label@, 0) is None,
        },
{
    let ghost dv = defs_view(defs@);
    let mut k: usize = 0;
    while k < defs.len()
        invariant
            k <= defs@.len(),
            dv == defs_view(defs@),
            lookup_from(dv, label@, k as int) == lookup_from(dv, label@, 0),
        decreases defs@.len() - k,
    {
        assert(dv[k as int] == (defs@[k as int].0@, defs@[k as int].1 as int, defs@[k as int].2 as int));
        if same_str(defs[k].0.as_str(), label.as_str()) {
            return Some((defs[k].1, defs[k].2));
        }
        k = k + 1;
    }
    None
}

fn is_inlining(inlining: &Vec<String>, label: &String) -> (r: bool)
    ensures
        r == strings_view(inlining@).contains(label@),
{
    let ghost iv = strings_view(inlining@);
    let mut k: usize = 0;
    while k < inlining.len()
        invariant
            k <= inlining@.len(),
            iv == strings_view(inlining@),
            forall|t: int| 0 <= t < k ==> iv[t] != label@,
        decreases inlining@.len() - k,
    {
        if same_str(inlining[k].as_str(), label.as_str()) {
            assert(iv[k as int] == label@);
            return true;
        }
        k = k + 1;
    }
    false
}

fn push_newline(text: &mut Vec<char>)
    ensures
        final(text)@ == newline_spec(old(text)@),
{
    if text.len() > 0 && text[text.len() - 1] != '\n' {
        text.push('\n');
    }
}

/// Cells within a table row are separated by a single space.
fn push_cell_separator(text: &mut Vec<char>)
    ensures
        final(text)@ == cell_separator_spec(old(text)@),
{
    if text.len() > 0 && text[text.len() - 1] != '\n' && text[text.len() - 1] != ' ' {
        text.push(' ');
    }
}

/// The source ranges of omitted-HTML warnings.
pub open spec fn html_ranges(diagnostics: Seq<Diagnostic>) -> Seq<(int, int)> {
    Seq::new(
        diagnostics.len(),
        |k: int|
            match diagnostics[k].span {
                Some(s) => (s.start as int, s.end as int),
                None => (0, 0),
            },
    )
}

/// Every diagnostic is a located raw-HTML warning.
pub open spec fn html_warnings(diagnostics: Seq<Diagnostic>) -> bool {
    forall|k: int|
        0 <= k < diagnostics.len() ==> {
            &&& (#[trigger] diagnostics[k]).code == DiagnosticCode::RawHtmlOmitted
            &&& diagnostics[k].severity == Severity::Warning
            &&& diagnostics[k].span is Some
        }
}

fn push_text(text: &mut Vec<char>, value: &String)
    ensures
        final(text)@ == old(text)@ + value@,
{
    let chars = chars_of(value.as_str());
    let ghost start = text@;
    let mut k: usize = 0;
    while k < chars.len()
        invariant
            k <= chars@.len(),
            text@ == start + chars@.subrange(0, k as int),
        decreases chars@.len() - k,
    {
        text.push(chars[k]);
        k = k + 1;
        assert(chars@.subrange(0, k as int) =~= chars@.subrange(0, k - 1) + seq![chars@[k - 1]]);
    }
    assert(chars@.subrange(0, chars@.len() as int) =~= chars@);
}

/// Renders the events `lo..hi` onto `text`, recording omitted raw HTML.
fn render_events(
    items: &[MdItem],
    lo: usize,
    hi: usize,
    defs: &Vec<(String, usize, usize)>,
    inlining: &mut Vec<String>,
    text: &mut Vec<char>,
    diagnostics: &mut Vec<Diagnostic>,
)
    requires
        html_warnings(old(diagnostics)@),
        old(inlining)@.len() <= defs@.len(),
    ensures
        (final(text)@, html_ranges(final(diagnostics)@)) == render_from(
            md_views(items@),
            lo as int,
            hi as int,
            defs_view(defs@),
            strings_view(old(inlining)@),
            old(text)@,
            html_ranges(old(diagnostics)@),
        ),
        html_warnings(final(diagnostics)@),
        strings_view(final(inlining)@) == strings_view(old(inlining)@),
        final(inlining)@.len() == old(inlining)@.len(),
    decreases defs@.len() - old(inlining)@.len(), hi - lo,
{
    let ghost dv = defs_view(defs@);
    let ghost iv = strings_view(inlining@);
    let ghost goal = render_from(md_views(items@), lo as int, hi as int, dv, iv, text@, html_ranges(diagnostics@));
    let mut index = lo;
    while index < hi && index < items.len()
        invariant
            dv == defs_view(defs@),
            iv == strings_view(inlining@),
            iv == strings_view(old(inlining)@),
            goal == render_from(md_views(items@), lo as int, hi as int, dv, iv, old(text)@, html_ranges(old(diagnostics)@)),
            inlining@.len() == old(inlining)@.len(),
            inlining@.len() <= defs@.len(),
            lo <= index,
            html_warnings(diagnostics@),
            render_from(md_views(items@), index as int, hi as int, dv, iv, text@, html_ranges(diagnostics@)) == goal,
        decreases hi - index,
    {
        assert(items@[index as int].event@ == events_view(items@)[index as int]);
        let event = &items[index].event;
        if opens_footnote_exec(event) {
            let end = footnote_definition_end(items, index);
            if end >= items.len() || end + 1 >= hi {
                return;
            }
            index = end + 1;
            continue;
        }
        match event {
            MdEvent::FootnoteReference(label) => {
                match lookup_def(defs, label) {
                    Some((body_start, body_end)) => {
                        if !is_inlining(inlining, label) && inlining.len() < defs.len() {
                            let ghost iv2 = iv.push(label@);
                            inlining.push(label.clone());
                            assert(strings_view(inlining@) =~= iv2);
                            push_newline(text);
                            render_events(items, body_start, body_end, defs, inlining, text, diagnostics);
                            push_newline(text);
                            let ghost before_pop = inlining@;
                            assert(strings_view(before_pop) == iv2);
                            inlining.pop();
                            assert(strings_view(inlining@) =~= iv) by {
                                assert(inlining@ == before_pop.drop_last());
                                assert forall|t: int| 0 <= t < iv.len() implies strings_view(inlining@)[t] == iv[t] by {
                                    assert(strings_view(before_pop)[t] == before_pop[t]@);
                                    assert(iv2[t] == iv[t]);
                                }
                            }
                        }
                    },
                    None => {},
                }
            },
            MdEvent::Text(value) => push_text(text, value),
            MdEvent::Code(value) => push_text(text, value),
            MdEvent::SoftBreak => push_newline(text),
            MdEvent::HardBreak => push_newline(text),
            MdEvent::Start(name, _) => {
                if is_line_block_exec(name) {
                    push_newline(text);
                } else if is_cell(name) {
                    push_cell_separator(text);
                }
            },
            MdEvent::End(name) => {
                if is_line_block_exec(name) {
                    push_newline(text);
                }
            },
            MdEvent::Html(_) | MdEvent::InlineHtml(_) => {
                let ghost before = diagnostics@;
                diagnostics.push(
                    Diagnostic {
                        code: DiagnosticCode::RawHtmlOmitted,
                        severity: Severity::Warning,
                        message: "Raw HTML is omitted from Markdown visible text".to_owned(),
                        span: Some(SourceSpan { start: items[index].start, end: items[index].end }),
                        related: Vec::new(),
                    },
                );
                assert(html_ranges(diagnostics@) =~= html_ranges(before).push(
                    (items@[index as int].start as int, items@[index as int].end as int),
                ));
            },
            _ => {},
        }
        index = index + 1;
    }
}

/// The visible text of Markdown events: rendered, then NFC-normalised,
/// with a warning for each piece of omitted raw HTML.
pub fn render_markdown(items: &[MdItem], profile: Profile) -> (r: VisibleText)
    ensures
        ({
            let rendered = render_from(
                md_views(items@),
                0,
                items@.len() as int,
                collect_from(events_view(items@), 0, Seq::empty()),
                Seq::empty(),
                Seq::empty(),
                Seq::empty(),
            );
            &&& r.text@ == nfc_spec(rendered.0)
            &&& html_ranges(r.diagnostics@) == rendered.1
        }),
        html_warnings(r.diagnostics@),
        r.normalisation@ == seq!['N', 'F', 'C'],
        r.profile == profile,
        nfc_spec(r.text@) == r.text@,
{
    let defs = collect_footnote_definitions(items);
    let mut inlining: Vec<String> = Vec::new();
    let mut text: Vec<char> = Vec::new();
    let mut diagnostics: Vec<Diagnostic> = Vec::new();
    assert(strings_view(inlining@) =~= Seq::<Seq<char>>::empty());
    assert(html_ranges(diagnostics@) =~= Seq::<(int, int)>::empty());
    render_events(items, 0, items.len(), &defs, &mut inlining, &mut text, &mut diagnostics);
    let normalised = nfc(text.as_slice());
    VisibleText { text: string_of(normalised.as_slice()), normalisation: nfc_name(), profile, diagnostics }
}

/// The text that Markdown rendering gives for `source` before
/// normalisation, and the byte ranges of the raw HTML it leaves out.
pub open spec fn markdown_render(source: Seq<char>) -> (Seq<char>, Seq<(int, int)>) {
    let views = markdown_views(source);
    render_from(
        views,
        0,
        views.len() as int,
        collect_from(events_of(views), 0, Seq::empty()),
        Seq::empty(),
        Seq::empty(),
        Seq::empty(),
    )
}

/// The canonical visible text of a target document: NFC text for the
/// plain profiles; rendered Markdown text for the Markdown profiles.
pub fn extract_visible_text(source: &str, profile: Profile) -> (r: Result<VisibleText, Diagnostic>)
    ensures
        r matches Ok(v) && v.profile == profile && v.normalisation@ == seq!['N', 'F', 'C']
            && html_warnings(v.diagnostics@) && nfc_spec(v.text@) == v.text@,
        (profile == Profile::Plain || profile == Profile::PlainLoose) ==> (r matches Ok(v)
            && v.text@ == nfc_spec(source@) && v.diagnostics@.len() == 0),
        (profile == Profile::Markdown || profile == Profile::MarkdownLoose) ==> (r matches Ok(v)
            && v.text@ == nfc_spec(markdown_render(source@).0) && html_ranges(v.diagnostics@)
            == markdown_render(source@).1),
{
    match profile {
        Profile::Plain | Profile::PlainLoose => {
            let text = nfc(chars_of(source).as_slice());
            let diagnostics: Vec<Diagnostic> = Vec::new();
            assert(html_warnings(diagnostics@));
            Ok(VisibleText { text: string_of(text.as_slice()), normalisation: nfc_name(), profile, diagnostics })
        },
        Profile::Markdown | Profile::MarkdownLoose => {
            let items = markdown_items(source);
            Ok(render_markdown(items.as_slice(), profile))
        },
    }
}


/// Two cells of one table row read as their texts with one space between
/// them: when a non-empty cell text that ends in neither a space nor a
/// line break is followed by the next cell, the visible text ends with the
/// first cell's text, a space and the second cell's text.
pub proof fn lemma_adjacent_cells_are_spaced(
    items: Seq<MdView>,
    i: int,
    defs: Seq<(Seq<char>, int, int)>,
    inlining: Seq<Seq<char>>,
    text: Seq<char>,
    html: Seq<(int, int)>,
    a: Seq<char>,
    b: Seq<char>,
)
    requires
        0 <= i,
        i + 6 <= items.len(),
        items[i].0 == MdEventView::Start(cell_name(), None),
        items[i + 1].0 == MdEventView::Text(a),
        items[i + 2].0 == MdEventView::End(cell_name()),
        items[i + 3].0 == MdEventView::Start(cell_name(), None),
        items[i + 4].0 == MdEventView::Text(b),
        items[i + 5].0 == MdEventView::End(cell_name()),
        a.len() > 0,
        a.last() != '\n',
        a.last() != ' ',
    ensures
        ({
            let out = render_from(items, i, i + 6, defs, inlining, text, html).0;
            let tail = a + seq![' '] + b;
            out.len() >= tail.len() && out.subrange(out.len() - tail.len(), out.len() as int) == tail
        }),
{
    let cell = cell_name();
    assert(!is_line_block(cell)) by {
        assert(cell.len() == 9);
        assert(cell[4] == 'e');
        assert(cell.take(8)[0] == 'T');
        assert(cell != seq!['T', 'a', 'b', 'l', 'e']);
        assert(cell[5] == 'C');
        assert(seq!['T', 'a', 'b', 'l', 'e', 'R', 'o', 'w'][5] == 'R');
        assert(seq!['T', 'a', 'b', 'l', 'e', 'H', 'e', 'a', 'd'][5] == 'H');
        assert(seq!['I', 't', 'e', 'm'].len() == 4);
    }
    let t1 = cell_separator_spec(text);
    let t2 = t1 + a;
    let t3 = cell_separator_spec(t2);
    assert(t2.last() == a.last());
    assert(t3 == t2.push(' '));
    let t4 = t3 + b;
    let hi = i + 6;
    assert(render_from(items, i + 6, hi, defs, inlining, t4, html) == (t4, html));
    assert(render_from(items, i + 5, hi, defs, inlining, t4, html) == (t4, html));
    assert(render_from(items, i + 4, hi, defs, inlining, t3, html) == (t4, html));
    assert(render_from(items, i + 3, hi, defs, inlining, t2, html) == (t4, html));
    assert(render_from(items, i + 2, hi, defs, inlining, t2, html) == (t4, html));
    assert(render_from(items, i + 1, hi, defs, inlining, t1, html) == (t4, html));
    assert(render_from(items, i, hi, defs, inlining, text, html) == (t4, html));
    let tail = a + seq![' '] + b;
    assert(t4 == t1 + tail);
    assert(t4.subrange(t4.len() - tail.len(), t4.len() as int) =~= tail);
}


/// A paragraph's text ends its line: text that does not already end in a
/// line break, followed by the end of its paragraph, is followed by
/// exactly one line break.
pub proof fn lemma_paragraph_ends_its_line(
    items: Seq<MdView>,
    i: int,
    defs: Seq<(Seq<char>, int, int)>,
    inlining: Seq<Seq<char>>,
    text: Seq<char>,
    html: Seq<(int, int)>,
    a: Seq<char>,
)
    requires
        0 <= i,
        i + 2 <= items.len(),
        items[i].0 == MdEventView::Text(a),
        items[i + 1].0 == MdEventView::End(seq!['P', 'a', 'r', 'a', 'g', 'r', 'a', 'p', 'h']),
        a.len() > 0,
        a.last() != '\n',
    ensures
        ({
            let out = render_from(items, i, i + 2, defs, inlining, text, html).0;
            out == text + a + seq!['\n']
        }),
{
    let t1 = text + a;
    assert(t1.last() == a.last());
    let t2 = t1.push('\n');
    assert(is_line_block(seq!['P', 'a', 'r', 'a', 'g', 'r', 'a', 'p', 'h']));
    assert(render_from(items, i + 2, i + 2, defs, inlining, t2, html) == (t2, html));
    assert(render_from(items, i + 1, i + 2, defs, inlining, t1, html) == (t2, html));
    assert(t2 =~= text + a + seq!['\n']);
}

} // verus!
