//! Snippet values: the parts of a `[...]` snippet as the matcher reads
//! them.
use vstd::prelude::*;
use crate::scan::find_spec;
use crate::syntax::SyntaxKind;
use crate::text::{append_range, string_of, string_of_range};
use crate::tree::{children_spec, element_text, first_of_spec, kind_in, node_end_spec, start_kind, tokens_in, Element, SyntaxNode, SyntaxTree};

verus! {

#[derive(Debug, Clone, PartialEq)]
pub enum SnippetPart {
    /// Raw unquoted body text, matched verbatim.
    Text(String),
    /// A quoted run. `raw` includes the delimiters and undecoded escapes;
    /// `decoded` strips the delimiters and decodes only `\"` to `"`.
    Quoted { raw: String, decoded: String, terminated: bool },
    /// `{...}` capture; `text` is the raw inner text.
    Capture { text: String, terminated: bool },
    /// An unquoted, top-level `..` in a range snippet.
    RangeSeparator,
}

/// A snippet part with its strings seen as character sequences.
pub enum PartView {
    Text(Seq<char>),
    Quoted { raw: Seq<char>, decoded: Seq<char>, terminated: bool },
    Capture { text: Seq<char>, terminated: bool },
    RangeSeparator,
}

impl View for SnippetPart {
    type V = PartView;

    open spec fn view(&self) -> PartView {
        match self {
            SnippetPart::Text(t) => PartView::Text(t@),
            SnippetPart::Quoted { raw, decoded, terminated } => PartView::Quoted {
                raw: raw@,
                decoded: decoded@,
                terminated: *terminated,
            },
            SnippetPart::Capture { text, terminated } => PartView::Capture {
                text: text@,
                terminated: *terminated,
            },
            SnippetPart::RangeSeparator => PartView::RangeSeparator,
        }
    }
}

pub open spec fn parts_view(parts: Seq<SnippetPart>) -> Seq<PartView> {
    parts.map_values(|p: SnippetPart| p@)
}

#[derive(Debug, Clone, Copy, PartialEq, Eq, Structural)]
pub enum Cardinality {
    ExactlyOne,
    OneOrMore,
    ZeroOrMore,
    ZeroOrOne,
}

#[derive(Debug, Clone, PartialEq)]
pub struct SnippetValue {
    /// Trimmed source syntax (`[Alice]+`), any `~` already stripped.
    pub source: String,
    pub parts: Vec<SnippetPart>,
    pub cardinality: Cardinality,
    /// False when the closing `]` is missing.
    pub terminated: bool,
}

/// The text of the `Text` tokens among `elements`, concatenated.
pub open spec fn text_tokens(tree: &SyntaxTree, elements: Seq<Element>) -> Seq<char>
    decreases elements.len(),
{
    if elements.len() == 0 {
        Seq::empty()
    } else {
        text_tokens(tree, elements.drop_last()) + match elements.last() {
            Element::Token(kind, s, e) => if kind == SyntaxKind::Text {
                tree.source@.subrange(s as int, e as int)
            } else {
                Seq::empty()
            },
            Element::Node(_) => Seq::empty(),
        }
    }
}

/// How many tokens of `kind` are among `elements`.
pub open spec fn token_count(elements: Seq<Element>, kind: SyntaxKind) -> nat
    decreases elements.len(),
{
    if elements.len() == 0 {
        0
    } else {
        token_count(elements.drop_last(), kind) + if elements.last() matches Element::Token(k, _, _) && k == kind {
            1nat
        } else {
            0nat
        }
    }
}

/// The part that the `Capture` node opened at `j` denotes: the text of
/// its text tokens, terminated when it has a closing `}`.
pub open spec fn capture_view(tree: &SyntaxTree, j: int) -> PartView {
    let elements = children_spec(tree.events@, j);
    PartView::Capture {
        text: text_tokens(tree, elements),
        terminated: token_count(elements, SyntaxKind::RBrace) > 0,
    }
}

/// The part that the `QuotedSnippetPart` node opened at `j` denotes: its
/// raw text, the text inside its quotes with `\"` decoded, and whether
/// both quotes are there.
pub open spec fn quoted_view(tree: &SyntaxTree, j: int) -> PartView {
    let tokens = tokens_in(tree.events@, j + 1, node_end_spec(tree.events@, j));
    PartView::Quoted {
        raw: element_text(tree, Element::Node(j as usize)),
        decoded: unescape_quotes_spec(text_tokens(tree, tokens)),
        terminated: token_count(tokens, SyntaxKind::Quote) >= 2,
    }
}

/// The parts one child of a snippet node contributes.
pub open spec fn element_parts(tree: &SyntaxTree, element: Element, is_range: bool) -> Seq<PartView> {
    match element {
        Element::Token(kind, s, e) => if kind == SyntaxKind::LBrack || kind == SyntaxKind::RBrack {
            Seq::empty()
        } else if kind == SyntaxKind::Dot {
            seq![PartView::RangeSeparator]
        } else if kind == SyntaxKind::Text && is_range {
            split_spec(tree.source@.subrange(s as int, e as int))
        } else {
            seq![PartView::Text(tree.source@.subrange(s as int, e as int))]
        },
        Element::Node(j) => {
            let kind = start_kind(tree.events@[j as int]);
            if kind == SyntaxKind::QuotedSnippetPart {
                seq![quoted_view(tree, j as int)]
            } else if kind == SyntaxKind::Capture {
                seq![capture_view(tree, j as int)]
            } else if kind == SyntaxKind::Quantifier {
                Seq::empty()
            } else if kind == SyntaxKind::Error {
                match first_of_spec(tree.events@, j as int, seq![SyntaxKind::Capture], false) {
                    Some(c) => seq![capture_view(tree, c)],
                    None => seq![PartView::Text(element_text(tree, element))],
                }
            } else {
                seq![PartView::Text(element_text(tree, element))]
            }
        },
    }
}

/// The parts of a snippet whose children are `elements`.
pub open spec fn snippet_parts(tree: &SyntaxTree, elements: Seq<Element>, is_range: bool) -> Seq<PartView>
    decreases elements.len(),
{
    if elements.len() == 0 {
        Seq::empty()
    } else {
        snippet_parts(tree, elements.drop_last(), is_range) + element_parts(tree, elements.last(), is_range)
    }
}

/// The cardinality a quantifier's text gives.
pub open spec fn quantifier_cardinality(text: Seq<char>) -> Cardinality {
    if text == seq!['+'] {
        Cardinality::OneOrMore
    } else if text == seq!['*'] {
        Cardinality::ZeroOrMore
    } else if text == seq!['?'] {
        Cardinality::ZeroOrOne
    } else {
        Cardinality::ExactlyOne
    }
}

/// A snippet's cardinality: that of its last quantifier, exactly one
/// without any.
pub open spec fn snippet_cardinality(tree: &SyntaxTree, elements: Seq<Element>) -> Cardinality
    decreases elements.len(),
{
    if elements.len() == 0 {
        Cardinality::ExactlyOne
    } else {
        match elements.last() {
            Element::Node(j) => if start_kind(tree.events@[j as int]) == SyntaxKind::Quantifier {
                quantifier_cardinality(element_text(tree, elements.last()))
            } else {
                snippet_cardinality(tree, elements.drop_last())
            },
            Element::Token(_, _, _) => snippet_cardinality(tree, elements.drop_last()),
        }
    }
}

/// The snippet value of the `Snippet` or `RangeSnippet` node opened at
/// `i`, with the given source text.
pub open spec fn snippet_view(tree: &SyntaxTree, i: int, source: Seq<char>) -> SnippetView {
    let elements = children_spec(tree.events@, i);
    SnippetView {
        source,
        parts: snippet_parts(tree, elements, start_kind(tree.events@[i]) == SyntaxKind::RangeSnippet),
        cardinality: snippet_cardinality(tree, elements),
        terminated: token_count(elements, SyntaxKind::RBrack) > 0,
    }
}

impl SnippetPart {
    pub fn duplicate(&self) -> (r: SnippetPart)
        ensures
            r@ == self@,
    {
        match self {
            SnippetPart::Text(t) => SnippetPart::Text(t.clone()),
            SnippetPart::Quoted { raw, decoded, terminated } => SnippetPart::Quoted {
                raw: raw.clone(),
                decoded: decoded.clone(),
                terminated: *terminated,
            },
            SnippetPart::Capture { text, terminated } => SnippetPart::Capture {
                text: text.clone(),
                terminated: *terminated,
            },
            SnippetPart::RangeSeparator => SnippetPart::RangeSeparator,
        }
    }
}

/// A snippet value with its strings seen as character sequences.
pub struct SnippetView {
    pub source: Seq<char>,
    pub parts: Seq<PartView>,
    pub cardinality: Cardinality,
    pub terminated: bool,
}

impl View for SnippetValue {
    type V = SnippetView;

    open spec fn view(&self) -> SnippetView {
        SnippetView {
            source: self.source@,
            parts: parts_view(self.parts@),
            cardinality: self.cardinality,
            terminated: self.terminated,
        }
    }
}

impl SnippetValue {
    pub open spec fn same(&self, other: &SnippetValue) -> bool {
        &&& self.source@ == other.source@
        &&& parts_view(self.parts@) == parts_view(other.parts@)
        &&& self.cardinality == other.cardinality
        &&& self.terminated == other.terminated
    }

    pub fn duplicate(&self) -> (r: SnippetValue)
        ensures
            r.same(self),
            r@ == self@,
    {
        let mut parts: Vec<SnippetPart> = Vec::new();
        let mut k: usize = 0;
        while k < self.parts.len()
            invariant
                k <= self.parts@.len(),
                parts@.len() == k,
                forall|u: int| 0 <= u < k ==> (#[trigger] parts@[u])@ == self.parts@[u]@,
            decreases self.parts@.len() - k,
        {
            parts.push(self.parts[k].duplicate());
            k = k + 1;
        }
        assert(parts_view(parts@) =~= parts_view(self.parts@));
        SnippetValue {
            source: self.source.clone(),
            parts,
            cardinality: self.cardinality,
            terminated: self.terminated,
        }
    }

    /// The snippet value of a `Snippet` or `RangeSnippet` node.
    pub fn from_node(node: &SyntaxNode, source: String) -> (r: SnippetValue)
        requires
            node.valid(),
        ensures
            r@ == snippet_view(node.tree, node.index as int, source@),
    {
        let is_range = node.kind() == SyntaxKind::RangeSnippet;
        let mut parts: Vec<SnippetPart> = Vec::new();
        let mut cardinality = Cardinality::ExactlyOne;
        let mut terminated = false;
        let elements = node.children_with_tokens();
        let source_chars = node.tree.source.as_slice();
        let mut k: usize = 0;
        assert(elements@.take(0) =~= Seq::<Element>::empty());
        while k < elements.len()
            invariant
                node.valid(),
                source_chars@ == node.tree.source@,
                k <= elements@.len(),
                is_range == (start_kind(node.tree.events@[node.index as int]) == SyntaxKind::RangeSnippet),
                elements@ == children_spec(node.tree.events@, node.index as int),
                parts_view(parts@) == snippet_parts(node.tree, elements@.take(k as int), is_range),
                cardinality == snippet_cardinality(node.tree, elements@.take(k as int)),
                terminated == (token_count(elements@.take(k as int), SyntaxKind::RBrack) > 0),
                forall|t: int|
                    #![trigger elements@[t]]
                    0 <= t < elements@.len() ==> match elements@[t] {
                        Element::Node(j) => j < node.tree.events@.len(),
                        Element::Token(kind, s, e) => s <= e <= node.tree.source@.len(),
                    },
            decreases elements@.len() - k,
        {
            let ghost before = parts_view(parts@);
            proof {
                assert(elements@.take(k + 1).drop_last() =~= elements@.take(k as int));
                assert(elements@.take(k + 1).last() == elements@[k as int]);
            }
            let ghost expected = element_parts(node.tree, elements@[k as int], is_range);
            match elements[k] {
                Element::Token(kind, s, e) => {
                    if kind == SyntaxKind::LBrack {
                        assert(before =~= before + expected);
                    } else if kind == SyntaxKind::RBrack {
                        terminated = true;
                        assert(before =~= before + expected);
                    } else if kind == SyntaxKind::Dot {
                        parts.push(SnippetPart::RangeSeparator);
                        assert(parts_view(parts@) =~= before + expected);
                    } else if kind == SyntaxKind::Text && is_range {
                        split_on_range_separator(source_chars, s, e, &mut parts);
                    } else {
                        parts.push(SnippetPart::Text(string_of_range(source_chars, s, e)));
                        assert(parts_view(parts@) =~= before + expected);
                    }
                },
                Element::Node(j) => {
                    let child = SyntaxNode { tree: node.tree, index: j };
                    let kind = child.kind();
                    if kind == SyntaxKind::QuotedSnippetPart {
                        parts.push(quoted_part(&child));
                        assert(parts_view(parts@) =~= before + expected);
                    } else if kind == SyntaxKind::Capture {
                        parts.push(capture_part(&child));
                        assert(parts_view(parts@) =~= before + expected);
                    } else if kind == SyntaxKind::Quantifier {
                        let (start, end) = child.char_range();
                        proof {
                            reveal_quantifier(node.tree.source@.subrange(start as int, end as int));
                        }
                        cardinality = if end - start == 1 && source_chars[start] == '+' {
                            Cardinality::OneOrMore
                        } else if end - start == 1 && source_chars[start] == '*' {
                            Cardinality::ZeroOrMore
                        } else if end - start == 1 && source_chars[start] == '?' {
                            Cardinality::ZeroOrOne
                        } else {
                            Cardinality::ExactlyOne
                        };
                        assert(before =~= before + expected);
                    } else if kind == SyntaxKind::Error {
                        let capture_kinds = [SyntaxKind::Capture];
                        assert(capture_kinds@ =~= seq![SyntaxKind::Capture]);
                        match child.first_of(&capture_kinds, false) {
                            Some(capture) => {
                                parts.push(capture_part(&capture));
                                assert(parts_view(parts@) =~= before + expected);
                            },
                            None => {
                                parts.push(SnippetPart::Text(child.text()));
                                assert(parts_view(parts@) =~= before + expected);
                            },
                        }
                    } else {
                        parts.push(SnippetPart::Text(child.text()));
                        assert(parts_view(parts@) =~= before + expected);
                    }
                },
            }
            proof {
                assert(parts_view(parts@) =~= before + element_parts(node.tree, elements@[k as int], is_range));
            }
            k = k + 1;
        }
        assert(elements@.take(k as int) =~= elements@);
        SnippetValue { source, parts, cardinality, terminated }
    }
}

proof fn reveal_quantifier(text: Seq<char>)
    ensures
        quantifier_cardinality(text) == if text.len() == 1 && text[0] == '+' {
            Cardinality::OneOrMore
        } else if text.len() == 1 && text[0] == '*' {
            Cardinality::ZeroOrMore
        } else if text.len() == 1 && text[0] == '?' {
            Cardinality::ZeroOrOne
        } else {
            Cardinality::ExactlyOne
        },
{
    if text.len() == 1 {
        if text[0] == '+' {
            assert(text =~= seq!['+']);
        } else if text[0] == '*' {
            assert(text =~= seq!['*']);
        } else if text[0] == '?' {
            assert(text =~= seq!['?']);
        }
    }
}

/// The parts that splitting `text` at each `..` yields.
pub open spec fn split_spec(text: Seq<char>) -> Seq<PartView>
    decreases text.len(),
{
    match find_spec(text, 0, text.len() as int, seq!['.', '.']) {
        Some(p) => {
            let head: Seq<PartView> = if p > 0 {
                seq![PartView::Text(text.subrange(0, p))]
            } else {
                Seq::empty()
            };
            if p + 2 <= text.len() && p >= 0 {
                head + seq![PartView::RangeSeparator] + split_spec(text.subrange(p + 2, text.len() as int))
            } else {
                head
            }
        },
        None => if text.len() > 0 {
            seq![PartView::Text(text)]
        } else {
            Seq::empty()
        },
    }
}

/// Splits the text `start..end` of `src` at each `..`, appending text
/// parts and range separators.
fn split_on_range_separator(src: &[char], start: usize, end: usize, parts: &mut Vec<SnippetPart>)
    requires
        start <= end <= src@.len(),
    ensures
        parts_view(final(parts)@) == parts_view(old(parts)@) + split_spec(
            src@.subrange(start as int, end as int),
        ),
{
    let mut remaining = start;
    let ghost before = parts_view(parts@);
    while remaining < end
        invariant
            start <= remaining <= end <= src@.len(),
            parts_view(parts@) + split_spec(src@.subrange(remaining as int, end as int)) == before
                + split_spec(src@.subrange(start as int, end as int)),
        decreases end - remaining,
    {
        let ghost rest = src@.subrange(remaining as int, end as int);
        match crate::scan::find(src, remaining, end, &['.', '.']) {
            Some(pos) => {
                proof {
                    lemma_find_shift(src@, remaining as int, end as int, seq!['.', '.']);
                    assert(['.', '.']@ =~= seq!['.', '.']);
                    assert(rest.subrange(pos - remaining + 2, rest.len() as int) =~= src@.subrange(
                        pos + 2,
                        end as int,
                    ));
                    assert(rest.subrange(0, pos - remaining) =~= src@.subrange(remaining as int, pos as int));
                }
                let ghost old_parts = parts_view(parts@);
                if pos > remaining {
                    parts.push(SnippetPart::Text(string_of_range(src, remaining, pos)));
                }
                parts.push(SnippetPart::RangeSeparator);
                proof {
                    assert(parts_view(parts@) =~= old_parts + (if pos > remaining {
                        seq![PartView::Text(src@.subrange(remaining as int, pos as int))]
                    } else {
                        Seq::<PartView>::empty()
                    }) + seq![PartView::RangeSeparator]);
                }
                remaining = pos + 2;
            },
            None => {
                proof {
                    lemma_find_shift(src@, remaining as int, end as int, seq!['.', '.']);
                    assert(['.', '.']@ =~= seq!['.', '.']);
                }
                let ghost old_parts = parts_view(parts@);
                parts.push(SnippetPart::Text(string_of_range(src, remaining, end)));
                proof {
                    assert(parts_view(parts@) =~= old_parts + seq![PartView::Text(rest)]);
                    assert(src@.subrange(end as int, end as int) =~= Seq::<char>::empty());
                }
                remaining = end;
            },
        }
    }
    proof {
        assert(src@.subrange(remaining as int, end as int) =~= Seq::<char>::empty());
        assert(split_spec(Seq::<char>::empty()) =~= Seq::<PartView>::empty());
        assert(parts_view(parts@) + Seq::<PartView>::empty() =~= parts_view(parts@));
    }
}

/// Searching a window of `src` is searching the window as a sequence of
/// its own, with positions shifted.
pub proof fn lemma_find_shift(src: Seq<char>, from: int, hi: int, pattern: Seq<char>)
    requires
        0 <= from <= hi <= src.len(),
    ensures
        find_spec(src.subrange(from, hi), 0, hi - from, pattern) == match find_spec(src, from, hi, pattern) {
            Some(p) => Some(p - from),
            None => None::<int>,
        },
    decreases hi - from + 1,
{
    lemma_find_shift_at(src, from, hi, pattern, from);
}

proof fn lemma_find_shift_at(src: Seq<char>, from: int, hi: int, pattern: Seq<char>, at: int)
    requires
        0 <= from <= at,
        from <= hi <= src.len(),
    ensures
        find_spec(src.subrange(from, hi), at - from, hi - from, pattern) == match find_spec(src, at, hi, pattern) {
            Some(p) => Some(p - from),
            None => None::<int>,
        },
    decreases hi + 1 - at,
{
    let w = src.subrange(from, hi);
    if at + pattern.len() <= hi {
        assert(w.subrange(at - from, at - from + pattern.len()) =~= src.subrange(at, at + pattern.len()));
        lemma_find_shift_at(src, from, hi, pattern, at + 1);
    }
}

/// The quoted part of a `QuotedSnippetPart` node. Quoting is literal:
/// only the quote delimiter is escaped, so decoding maps `\"` to `"`.
fn quoted_part(node: &SyntaxNode) -> (r: SnippetPart)
    requires
        node.valid(),
    ensures
        r@ == quoted_view(node.tree, node.index as int),
{
    let raw = node.text();
    let tokens = node.descendant_tokens();
    let source_chars = node.tree.source.as_slice();
    let mut quotes: usize = 0;
    let mut content: Vec<char> = Vec::new();
    let mut k: usize = 0;
    assert(tokens@.take(0) =~= Seq::<Element>::empty());
    while k < tokens.len()
        invariant
            node.valid(),
            source_chars@ == node.tree.source@,
            k <= tokens@.len(),
            quotes <= k,
            quotes == token_count(tokens@.take(k as int), SyntaxKind::Quote),
            content@ == text_tokens(node.tree, tokens@.take(k as int)),
            forall|t: int|
                #![trigger tokens@[t]]
                0 <= t < tokens@.len() ==> (tokens@[t] matches Element::Token(kind, s, e) && s <= e
                    <= node.tree.source@.len()),
        decreases tokens@.len() - k,
    {
        proof {
            assert(tokens@.take(k + 1).drop_last() =~= tokens@.take(k as int));
            assert(tokens@.take(k + 1).last() == tokens@[k as int]);
        }
        match tokens[k] {
            Element::Token(kind, s, e) => {
                if kind == SyntaxKind::Quote {
                    quotes = quotes + 1;
                } else if kind == SyntaxKind::Text {
                    append_range(&mut content, source_chars, s, e);
                }
            },
            Element::Node(_) => {},
        }
        k = k + 1;
    }
    assert(tokens@.take(k as int) =~= tokens@);
    let decoded = unescape_quotes(content.as_slice());
    SnippetPart::Quoted {
        raw,
        decoded: string_of(decoded.as_slice()),
        terminated: quotes >= 2,
    }
}

/// `text` with every `\"` replaced by `"`.
pub open spec fn unescape_quotes_spec(text: Seq<char>) -> Seq<char>
    decreases text.len(),
{
    if text.len() == 0 {
        Seq::empty()
    } else if text.len() >= 2 && text[0] == '\\' && text[1] == '"' {
        seq!['"'] + unescape_quotes_spec(text.subrange(2, text.len() as int))
    } else {
        seq![text[0]] + unescape_quotes_spec(text.subrange(1, text.len() as int))
    }
}

pub fn unescape_quotes(text: &[char]) -> (r: Vec<char>)
    ensures
        r@ == unescape_quotes_spec(text@),
{
    let mut r: Vec<char> = Vec::new();
    let mut i: usize = 0;
    assert(text@.subrange(0, text@.len() as int) =~= text@);
    while i < text.len()
        invariant
            i <= text@.len(),
            r@ + unescape_quotes_spec(text@.subrange(i as int, text@.len() as int))
                == unescape_quotes_spec(text@),
        decreases text@.len() - i,
    {
        let ghost rest = text@.subrange(i as int, text@.len() as int);
        if i + 1 < text.len() && text[i] == '\\' && text[i + 1] == '"' {
            assert(rest.subrange(2, rest.len() as int) =~= text@.subrange(i + 2, text@.len() as int));
            r.push('"');
            i = i + 2;
            assert(r@ =~= r@.drop_last() + seq!['"']);
        } else {
            assert(rest.subrange(1, rest.len() as int) =~= text@.subrange(i + 1, text@.len() as int));
            r.push(text[i]);
            i = i + 1;
        }
    }
    assert(text@.subrange(i as int, text@.len() as int) =~= Seq::<char>::empty());
    assert(r@ + Seq::<char>::empty() =~= r@);
    r
}

/// The capture part of a `Capture` node.
fn capture_part(node: &SyntaxNode) -> (r: SnippetPart)
    requires
        node.valid(),
    ensures
        r@ == capture_view(node.tree, node.index as int),
{
    let elements = node.children_with_tokens();
    let source_chars = node.tree.source.as_slice();
    let mut text: Vec<char> = Vec::new();
    let mut terminated = false;
    let mut k: usize = 0;
    assert(elements@.take(0) =~= Seq::<Element>::empty());
    while k < elements.len()
        invariant
            node.valid(),
            source_chars@ == node.tree.source@,
            k <= elements@.len(),
            elements@ == children_spec(node.tree.events@, node.index as int),
            text@ == text_tokens(node.tree, elements@.take(k as int)),
            terminated == (token_count(elements@.take(k as int), SyntaxKind::RBrace) > 0),
            forall|t: int|
                #![trigger elements@[t]]
                0 <= t < elements@.len() ==> match elements@[t] {
                    Element::Node(j) => true,
                    Element::Token(kind, s, e) => s <= e <= node.tree.source@.len(),
                },
        decreases elements@.len() - k,
    {
        proof {
            assert(elements@.take(k + 1).drop_last() =~= elements@.take(k as int));
            assert(elements@.take(k + 1).last() == elements@[k as int]);
        }
        match elements[k] {
            Element::Token(kind, s, e) => {
                if kind == SyntaxKind::Text {
                    append_range(&mut text, source_chars, s, e);
                } else if kind == SyntaxKind::RBrace {
                    terminated = true;
                }
            },
            Element::Node(_) => {},
        }
        k = k + 1;
    }
    assert(elements@.take(k as int) =~= elements@);
    SnippetPart::Capture { text: string_of(text.as_slice()), terminated }
}

} // verus!
