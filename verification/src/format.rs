//! The SnipX formatter: statements and directives are rewritten with
//! single spaces between their parts; everything else, host prose
//! included, is kept byte for byte. Source with parse diagnostics is
//! returned unchanged.
use vstd::prelude::*;
use crate::diagnostic::{copy_diagnostics, same_diagnostics, Diagnostic};
use crate::input::{InputForm, ParseOptions};
use crate::parser::{diagnostics_located, parse, parsed_from, Parse};
use crate::syntax::SyntaxKind;
use crate::text::{chars_of, string_of, utf8_len};
use crate::tree::{tokens_text, children_spec, element_text, indices_of, selection, start_kind, Element, SyntaxNode, SyntaxTree};

verus! {

#[derive(Debug, Clone, Copy, PartialEq, Eq, Structural)]
pub struct FormatOptions {
    pub input_form: InputForm,
}

#[derive(Debug, Clone, PartialEq, Eq)]
pub struct FormatResult {
    pub output: String,
    pub diagnostics: Vec<Diagnostic>,
}

pub open spec fn is_snipx_syntax_spec(kind: SyntaxKind) -> bool {
    kind == SyntaxKind::Statement || kind == SyntaxKind::Directive || kind
        == SyntaxKind::TargetDirective || kind == SyntaxKind::ProfileDirective
}

fn is_snipx_syntax_node(kind: SyntaxKind) -> (r: bool)
    ensures
        r == is_snipx_syntax_spec(kind),
{
    kind == SyntaxKind::Statement || kind == SyntaxKind::Directive || kind
        == SyntaxKind::TargetDirective || kind == SyntaxKind::ProfileDirective
}

/// Whether a compact part must not be preceded by a space: it opens with
/// `.`, `,` or `;`.
pub open spec fn trims_before(part: Seq<char>) -> bool {
    part.len() > 0 && (part[0] == '.' || part[0] == ',' || part[0] == ';')
}

/// Whether a space separates `part` from the output before it.
pub open spec fn needs_space_spec(output: Seq<char>, part: Seq<char>) -> bool {
    if output.len() == 0 || part.len() == 0 {
        false
    } else {
        let previous = output.last();
        let current = part[0];
        if current == '.' || current == ',' || current == ';' || current == ']' || current == '}' {
            false
        } else if part.len() >= 2 && part[0] == ':' && part[1] == ':' {
            !(previous == ':' || previous == '@')
        } else if previous == '@' || previous == '~' || previous == ':' || previous == '['
            || previous == '{' || previous == '`' || previous == '"' {
            false
        } else {
            true
        }
    }
}

/// `output` without its trailing spaces.
pub open spec fn trim_spaces_end(output: Seq<char>) -> Seq<char>
    decreases output.len(),
{
    if output.len() > 0 && output.last() == ' ' {
        trim_spaces_end(output.drop_last())
    } else {
        output
    }
}

/// Appending one part of a compact node.
pub open spec fn append_part_spec(output: Seq<char>, part: Seq<char>) -> Seq<char> {
    if part.len() == 0 {
        output
    } else if trims_before(part) {
        trim_spaces_end(output) + part
    } else if needs_space_spec(output, part) {
        output + seq![' '] + part
    } else {
        output + part
    }
}

/// Whether an element is a node of one of `kinds`.
pub open spec fn rewritten(tree: &SyntaxTree, element: Element, kinds: Seq<SyntaxKind>) -> bool {
    element matches Element::Node(j) && kinds.contains(start_kind(tree.events@[j as int]))
}

/// The text of `elements` laid out in order: each node of one of `kinds`
/// gives its piece, every other element its own source text.
pub open spec fn layout(
    tree: &SyntaxTree,
    elements: Seq<Element>,
    kinds: Seq<SyntaxKind>,
    pieces: Seq<Seq<char>>,
) -> Seq<char>
    decreases elements.len(),
{
    if elements.len() == 0 {
        Seq::empty()
    } else {
        let last = elements.len() - 1;
        layout(tree, elements.drop_last(), kinds, pieces) + if rewritten(tree, elements[last], kinds) {
            pieces[last]
        } else {
            element_text(tree, elements[last])
        }
    }
}

proof fn lemma_layout_push(
    tree: &SyntaxTree,
    elements: Seq<Element>,
    k: int,
    kinds: Seq<SyntaxKind>,
    pieces: Seq<Seq<char>>,
    piece: Seq<char>,
)
    requires
        0 <= k < elements.len(),
        pieces.len() == k,
    ensures
        layout(tree, elements.take(k + 1), kinds, pieces.push(piece)) == layout(
            tree,
            elements.take(k),
            kinds,
            pieces,
        ) + if rewritten(tree, elements[k], kinds) {
            piece
        } else {
            element_text(tree, elements[k])
        },
{
    assert(elements.take(k + 1).drop_last() =~= elements.take(k));
    lemma_layout_pieces(tree, elements.take(k), kinds, pieces, pieces.push(piece));
}

/// Only the first `elements.len()` pieces matter.
proof fn lemma_layout_pieces(
    tree: &SyntaxTree,
    elements: Seq<Element>,
    kinds: Seq<SyntaxKind>,
    a: Seq<Seq<char>>,
    b: Seq<Seq<char>>,
)
    requires
        elements.len() <= a.len(),
        elements.len() <= b.len(),
        forall|t: int| 0 <= t < elements.len() ==> a[t] == b[t],
    ensures
        layout(tree, elements, kinds, a) == layout(tree, elements, kinds, b),
    decreases elements.len(),
{
    if elements.len() > 0 {
        lemma_layout_pieces(tree, elements.drop_last(), kinds, a, b);
    }
}

/// The statements and directives of a SnipX region.
pub open spec fn snipx_syntax_kinds() -> Seq<SyntaxKind> {
    seq![SyntaxKind::Statement, SyntaxKind::Directive, SyntaxKind::TargetDirective, SyntaxKind::ProfileDirective]
}

/// `text` is the node opened at `i` with its statements and directives
/// rewritten and every other child kept as it was.
pub open spec fn region_formatted(tree: &SyntaxTree, i: int, text: Seq<char>) -> bool {
    exists|pieces: Seq<Seq<char>>|
        pieces.len() == children_spec(tree.events@, i).len() && text == layout(
            tree,
            children_spec(tree.events@, i),
            snipx_syntax_kinds(),
            pieces,
        )
}

/// `text` is the host document under node `i` with each of its SnipX
/// containers (nodes of `kinds`) formatted as a region and everything
/// else kept byte for byte.
pub open spec fn host_formatted(tree: &SyntaxTree, i: int, kinds: Seq<SyntaxKind>, text: Seq<char>) -> bool {
    let elements = children_spec(tree.events@, i);
    exists|pieces: Seq<Seq<char>>|
        {
            &&& pieces.len() == elements.len()
            &&& text == layout(tree, elements, kinds, pieces)
            &&& forall|k: int|
                0 <= k < elements.len() && rewritten(tree, elements[k], kinds) ==> region_formatted(
                    tree,
                    elements[k]->Node_0 as int,
                    #[trigger] pieces[k],
                )
        }
}

fn needs_space(output: &Vec<char>, part: &[char]) -> (r: bool)
    ensures
        r == needs_space_spec(output@, part@),
{
    if output.len() == 0 || part.len() == 0 {
        return false;
    }
    let previous = output[output.len() - 1];
    let current = part[0];
    if current == '.' || current == ',' || current == ';' || current == ']' || current == '}' {
        return false;
    }
    if part.len() >= 2 && part[0] == ':' && part[1] == ':' {
        return !(previous == ':' || previous == '@');
    }
    if previous == '@' || previous == '~' || previous == ':' || previous == '[' || previous == '{'
        || previous == '`' || previous == '"' {
        return false;
    }
    true
}

fn append_chars(output: &mut Vec<char>, part: &[char])
    ensures
        final(output)@ == old(output)@ + part@,
{
    let ghost start = output@;
    let mut k: usize = 0;
    while k < part.len()
        invariant
            k <= part@.len(),
            output@ == start + part@.subrange(0, k as int),
        decreases part@.len() - k,
    {
        output.push(part[k]);
        k = k + 1;
        assert(part@.subrange(0, k as int) =~= part@.subrange(0, k - 1) + seq![part@[k - 1]]);
    }
    assert(part@.subrange(0, part@.len() as int) =~= part@);
}

fn append_compact_part(output: &mut Vec<char>, part: &[char])
    ensures
        final(output)@ == append_part_spec(old(output)@, part@),
{
    if part.len() == 0 {
        return;
    }
    if part[0] == '.' || part[0] == ',' || part[0] == ';' {
        while output.len() > 0 && output[output.len() - 1] == ' '
            invariant
                trim_spaces_end(output@) == trim_spaces_end(old(output)@),
            decreases output@.len(),
        {
            let ghost before = output@;
            output.pop();
            assert(output@ == before.drop_last());
        }
    } else if needs_space(output, part) {
        output.push(' ');
    }
    append_chars(output, part);
}

fn node_chars(node: &SyntaxNode) -> (r: Vec<char>)
    requires
        node.valid(),
    ensures
        r@ == element_text(node.tree, Element::Node(node.index)),
{
    let (start, end) = node.char_range();
    copy_range(node.tree.source.as_slice(), start, end)
}

fn copy_range(chars: &[char], start: usize, end: usize) -> (r: Vec<char>)
    requires
        start <= end <= chars@.len(),
    ensures
        r@ == chars@.subrange(start as int, end as int),
{
    let mut r: Vec<char> = Vec::new();
    let mut k = start;
    while k < end
        invariant
            start <= k <= end <= chars@.len(),
            r@ == chars@.subrange(start as int, k as int),
        decreases end - k,
    {
        r.push(chars[k]);
        k = k + 1;
    }
    r
}

/// Whether a node holds a comment or an error anywhere inside it.
pub open spec fn holds_comment_or_error(tree: &SyntaxTree, j: int) -> bool {
    selection(
        tree.events@,
        j,
        seq![SyntaxKind::LineComment, SyntaxKind::BlockComment, SyntaxKind::Error],
        true,
    ).len() > 0
}

/// The kinds laid out as statements: their parts joined by single spaces.
pub open spec fn is_compact_kind(kind: SyntaxKind) -> bool {
    ||| kind == SyntaxKind::Statement
    ||| kind == SyntaxKind::Subject
    ||| kind == SyntaxKind::Predicate
    ||| kind == SyntaxKind::Object
    ||| kind == SyntaxKind::ObjectList
    ||| kind == SyntaxKind::Decoration
    ||| kind == SyntaxKind::Directive
    ||| kind == SyntaxKind::TargetDirective
    ||| kind == SyntaxKind::ProfileDirective
}

/// The kinds kept exactly as written.
pub open spec fn is_verbatim_kind(kind: SyntaxKind) -> bool {
    ||| kind == SyntaxKind::Snippet
    ||| kind == SyntaxKind::RangeSnippet
    ||| kind == SyntaxKind::QuotedSnippetPart
    ||| kind == SyntaxKind::Capture
    ||| kind == SyntaxKind::Quantifier
    ||| kind == SyntaxKind::Uri
    ||| kind == SyntaxKind::String
    ||| kind == SyntaxKind::TripleString
    ||| kind == SyntaxKind::Number
    ||| kind == SyntaxKind::Boolean
    ||| kind == SyntaxKind::BacktickPredicate
    ||| kind == SyntaxKind::LocalSubjectMarker
    ||| kind == SyntaxKind::Identifier
    ||| kind == SyntaxKind::Error
    ||| kind == SyntaxKind::LineComment
    ||| kind == SyntaxKind::BlockComment
}

/// The formatted text of the node opened at `j`.
pub open spec fn node_format(tree: &SyntaxTree, j: int) -> Seq<char>
    decreases tree.events@.len() - j, 2int, 0int,
{
    if j < 0 || j >= tree.events@.len() {
        Seq::empty()
    } else {
        let kind = start_kind(tree.events@[j]);
        if is_compact_kind(kind) {
            compact_format(tree, j)
        } else if is_verbatim_kind(kind) {
            element_text(tree, Element::Node(j as usize))
        } else {
            region_format(tree, j)
        }
    }
}

/// A statement-like node: kept verbatim when it holds a comment or an
/// error, else its parts joined by `append_part_spec`.
pub open spec fn compact_format(tree: &SyntaxTree, j: int) -> Seq<char>
    decreases tree.events@.len() - j, 1int, 0int,
{
    if j < 0 || j >= tree.events@.len() {
        Seq::empty()
    } else if holds_comment_or_error(tree, j) {
        element_text(tree, Element::Node(j as usize))
    } else {
        compact_fold(tree, j, children_spec(tree.events@, j), 0, Seq::empty())
    }
}

/// Appends the parts of the children `elements[k..]` of node `j` to
/// `acc`, whitespace tokens left out.
pub open spec fn compact_fold(tree: &SyntaxTree, j: int, elements: Seq<Element>, k: int, acc: Seq<char>) -> Seq<char>
    decreases tree.events@.len() - j, 0int, elements.len() - k,
{
    if k < 0 || k >= elements.len() || j < 0 {
        acc
    } else {
        let part = match elements[k] {
            Element::Node(c) => if j < c < tree.events@.len() {
                node_format(tree, c as int)
            } else {
                Seq::empty()
            },
            Element::Token(kind, s, e) => if kind == SyntaxKind::Whitespace {
                Seq::empty()
            } else {
                tree.source@.subrange(s as int, e as int)
            },
        };
        compact_fold(tree, j, elements, k + 1, append_part_spec(acc, part))
    }
}

/// A region: its statements and directives formatted, every other child
/// kept as written.
pub open spec fn region_format(tree: &SyntaxTree, j: int) -> Seq<char>
    decreases tree.events@.len() - j, 1int, 0int,
{
    if j < 0 || j >= tree.events@.len() {
        Seq::empty()
    } else {
        region_fold(tree, j, children_spec(tree.events@, j), 0, Seq::empty())
    }
}

/// Appends the children `elements[k..]` of region `j` to `acc`.
pub open spec fn region_fold(tree: &SyntaxTree, j: int, elements: Seq<Element>, k: int, acc: Seq<char>) -> Seq<char>
    decreases tree.events@.len() - j, 0int, elements.len() - k,
{
    if k < 0 || k >= elements.len() || j < 0 {
        acc
    } else {
        let part = match elements[k] {
            Element::Node(c) => if j < c < tree.events@.len() && is_snipx_syntax_spec(
                start_kind(tree.events@[c as int]),
            ) {
                node_format(tree, c as int)
            } else {
                element_text(tree, elements[k])
            },
            Element::Token(_, _, _) => element_text(tree, elements[k]),
        };
        region_fold(tree, j, elements, k + 1, acc + part)
    }
}

/// A host document: each of its SnipX containers (nodes of `kinds`)
/// formatted as a region, everything else kept as written.
pub open spec fn host_fold(tree: &SyntaxTree, elements: Seq<Element>, kinds: Seq<SyntaxKind>, k: int, acc: Seq<char>) -> Seq<char>
    decreases elements.len() - k,
{
    if k < 0 || k >= elements.len() {
        acc
    } else {
        let part = if rewritten(tree, elements[k], kinds) {
            region_format(tree, elements[k]->Node_0 as int)
        } else {
            element_text(tree, elements[k])
        };
        host_fold(tree, elements, kinds, k + 1, acc + part)
    }
}

/// Whether a node holds a comment or an error anywhere inside it.
fn contains_comment_or_error(node: &SyntaxNode) -> (r: bool)
    requires
        node.valid(),
    ensures
        r == holds_comment_or_error(node.tree, node.index as int),
{
    let kinds = [SyntaxKind::LineComment, SyntaxKind::BlockComment, SyntaxKind::Error];
    assert(kinds@ =~= seq![SyntaxKind::LineComment, SyntaxKind::BlockComment, SyntaxKind::Error]);
    let found = node.descendants_of(&kinds);
    assert(indices_of(found@).len() == found@.len());
    found.len() > 0
}

/// Formats a node whose children are laid out as SnipX syntax.
fn format_snipx_node(node: &SyntaxNode) -> (r: Vec<char>)
    requires
        node.valid(),
    ensures
        r@ == node_format(node.tree, node.index as int),
    decreases node.tree.events@.len() - node.index, 1int,
{
    let kind = node.kind();
    if kind == SyntaxKind::Statement || kind == SyntaxKind::Subject || kind == SyntaxKind::Predicate
        || kind == SyntaxKind::Object || kind == SyntaxKind::ObjectList || kind
        == SyntaxKind::Decoration || kind == SyntaxKind::Directive || kind
        == SyntaxKind::TargetDirective || kind == SyntaxKind::ProfileDirective {
        format_compact_node(node)
    } else if kind == SyntaxKind::Snippet || kind == SyntaxKind::RangeSnippet || kind
        == SyntaxKind::QuotedSnippetPart || kind == SyntaxKind::Capture || kind
        == SyntaxKind::Quantifier || kind == SyntaxKind::Uri || kind == SyntaxKind::String || kind
        == SyntaxKind::TripleString || kind == SyntaxKind::Number || kind == SyntaxKind::Boolean
        || kind == SyntaxKind::BacktickPredicate || kind == SyntaxKind::LocalSubjectMarker || kind
        == SyntaxKind::Identifier || kind == SyntaxKind::Error || kind == SyntaxKind::LineComment
        || kind == SyntaxKind::BlockComment {
        node_chars(node)
    } else {
        format_snipx_region(node)
    }
}

/// Formats a statement-like node: its parts joined by single spaces,
/// unless it holds a comment or an error, which keeps it verbatim.
fn format_compact_node(node: &SyntaxNode) -> (r: Vec<char>)
    requires
        node.valid(),
    ensures
        r@ == compact_format(node.tree, node.index as int),
    decreases node.tree.events@.len() - node.index, 0int,
{
    if contains_comment_or_error(node) {
        return node_chars(node);
    }
    let mut output: Vec<char> = Vec::new();
    let elements = node.children_with_tokens();
    let ghost j = node.index as int;
    let mut k: usize = 0;
    while k < elements.len()
        invariant
            node.valid(),
            k <= elements@.len(),
            j == node.index,
            elements@ == children_spec(node.tree.events@, j),
            compact_fold(node.tree, j, elements@, k as int, output@) == compact_fold(
                node.tree,
                j,
                elements@,
                0,
                Seq::empty(),
            ),
            forall|t: int|
                #![trigger elements@[t]]
                0 <= t < elements@.len() ==> match elements@[t] {
                    Element::Node(j) => node.index < j < node.tree.events@.len(),
                    Element::Token(_, s, e) => s <= e <= node.tree.source@.len(),
                },
        decreases elements@.len() - k,
    {
        let ghost before = output@;
        match elements[k] {
            Element::Node(c) => {
                let child = SyntaxNode { tree: node.tree, index: c };
                let part = format_snipx_node(&child);
                append_compact_part(&mut output, part.as_slice());
            },
            Element::Token(kind, s, e) => {
                if kind != SyntaxKind::Whitespace {
                    let part = copy_range(node.tree.source.as_slice(), s, e);
                    append_compact_part(&mut output, part.as_slice());
                } else {
                    assert(append_part_spec(before, Seq::empty()) == before);
                }
            },
        }
        k = k + 1;
    }
    output
}

/// Formats the SnipX statements and directives among a node's children,
/// keeping everything else verbatim.
fn format_snipx_region(node: &SyntaxNode) -> (r: Vec<char>)
    requires
        node.valid(),
    ensures
        region_formatted(node.tree, node.index as int, r@),
        r@ == region_format(node.tree, node.index as int),
    decreases node.tree.events@.len() - node.index, 0int,
{
    let mut output: Vec<char> = Vec::new();
    let elements = node.children_with_tokens();
    let ghost mut pieces: Seq<Seq<char>> = Seq::empty();
    let ghost j = node.index as int;
    let mut k: usize = 0;
    assert(elements@.take(0) =~= Seq::<Element>::empty());
    while k < elements.len()
        invariant
            node.valid(),
            k <= elements@.len(),
            j == node.index,
            elements@ == children_spec(node.tree.events@, node.index as int),
            region_fold(node.tree, j, elements@, k as int, output@) == region_fold(
                node.tree,
                j,
                elements@,
                0,
                Seq::empty(),
            ),
            pieces.len() == k,
            output@ == layout(node.tree, elements@.take(k as int), snipx_syntax_kinds(), pieces),
            forall|t: int|
                #![trigger elements@[t]]
                0 <= t < elements@.len() ==> match elements@[t] {
                    Element::Node(j) => node.index < j < node.tree.events@.len(),
                    Element::Token(_, s, e) => s <= e <= node.tree.source@.len(),
                },
        decreases elements@.len() - k,
    {
        let part = match elements[k] {
            Element::Node(j) => {
                let child = SyntaxNode { tree: node.tree, index: j };
                if is_snipx_syntax_node(child.kind()) {
                    format_snipx_node(&child)
                } else {
                    node_chars(&child)
                }
            },
            Element::Token(_, s, e) => copy_range(node.tree.source.as_slice(), s, e),
        };
        proof {
            assert(snipx_syntax_kinds().contains(start_kind(node.tree.events@[elements@[k as int]->Node_0 as int]))
                == is_snipx_syntax_spec(start_kind(node.tree.events@[elements@[k as int]->Node_0 as int])));
            lemma_layout_push(node.tree, elements@, k as int, snipx_syntax_kinds(), pieces, part@);
            pieces = pieces.push(part@);
        }
        append_chars(&mut output, part.as_slice());
        k = k + 1;
    }
    assert(elements@.take(k as int) =~= elements@);
    output
}

/// Formats the children of a host document: the SnipX containers among
/// them (`kinds`) are formatted, all other text is kept verbatim.
fn format_host(root: &SyntaxNode, container: SyntaxKind, other: SyntaxKind) -> (r: Vec<char>)
    requires
        root.valid(),
    ensures
        host_formatted(root.tree, root.index as int, seq![container, other], r@),
        r@ == host_fold(
            root.tree,
            children_spec(root.tree.events@, root.index as int),
            seq![container, other],
            0,
            Seq::empty(),
        ),
{
    let ghost kinds = seq![container, other];
    let mut output: Vec<char> = Vec::new();
    let elements = root.children_with_tokens();
    let ghost mut pieces: Seq<Seq<char>> = Seq::empty();
    let mut k: usize = 0;
    assert(elements@.take(0) =~= Seq::<Element>::empty());
    while k < elements.len()
        invariant
            root.valid(),
            k <= elements@.len(),
            kinds == seq![container, other],
            elements@ == children_spec(root.tree.events@, root.index as int),
            host_fold(root.tree, elements@, kinds, k as int, output@) == host_fold(
                root.tree,
                elements@,
                kinds,
                0,
                Seq::empty(),
            ),
            pieces.len() == k,
            output@ == layout(root.tree, elements@.take(k as int), kinds, pieces),
            forall|t: int|
                0 <= t < k && rewritten(root.tree, elements@[t], kinds) ==> region_formatted(
                    root.tree,
                    elements@[t]->Node_0 as int,
                    #[trigger] pieces[t],
                ),
            forall|t: int|
                #![trigger elements@[t]]
                0 <= t < elements@.len() ==> match elements@[t] {
                    Element::Node(j) => root.index < j < root.tree.events@.len(),
                    Element::Token(_, s, e) => s <= e <= root.tree.source@.len(),
                },
        decreases elements@.len() - k,
    {
        let part = match elements[k] {
            Element::Node(j) => {
                let child = SyntaxNode { tree: root.tree, index: j };
                let kind = child.kind();
                proof {
                    assert(kinds.contains(kind) == (kind == container || kind == other)) by {
                        if kind == other {
                            assert(kinds[1] == kind);
                        }
                        if kind == container {
                            assert(kinds[0] == kind);
                        }
                    }
                }
                if kind == container || kind == other {
                    format_snipx_region(&child)
                } else {
                    node_chars(&child)
                }
            },
            Element::Token(_, s, e) => copy_range(root.tree.source.as_slice(), s, e),
        };
        proof {
            lemma_layout_push(root.tree, elements@, k as int, kinds, pieces, part@);
            pieces = pieces.push(part@);
        }
        append_chars(&mut output, part.as_slice());
        k = k + 1;
    }
    assert(elements@.take(k as int) =~= elements@);
    output
}

/// The kinds of node that an input form's formatter rewrites among the
/// root's children: the statements and directives of commentaria, the
/// `///` lines and fences of marginalia, the `{{ ... }}` blocks of
/// intralinea.
pub open spec fn rewritten_kinds(input_form: InputForm) -> Seq<SyntaxKind> {
    match input_form {
        InputForm::Commentaria => snipx_syntax_kinds(),
        InputForm::Marginalia => seq![SyntaxKind::LineComment, SyntaxKind::Fence],
        InputForm::Intralinea => seq![SyntaxKind::IntralineaBlock, SyntaxKind::IntralineaBlock],
    }
}

/// The formatted text of a parsed document of the given input form.
pub open spec fn tree_format(tree: &SyntaxTree, input_form: InputForm) -> Seq<char> {
    if input_form == InputForm::Commentaria {
        region_format(tree, 0)
    } else {
        host_fold(tree, children_spec(tree.events@, 0), rewritten_kinds(input_form), 0, Seq::empty())
    }
}

/// Formats a parsed document. Only SnipX syntax is rewritten: commentaria
/// statements and directives, and in host documents the statements and
/// directives inside their SnipX containers; every other child, host
/// prose included, is kept byte for byte.
pub fn format_tree(parsed: &Parse, input_form: InputForm) -> (r: Vec<char>)
    requires
        parsed.wf(),
    ensures
        r@ == tree_format(&parsed.tree, input_form),
        input_form == InputForm::Commentaria ==> region_formatted(&parsed.tree, 0, r@),
        input_form != InputForm::Commentaria ==> host_formatted(&parsed.tree, 0, rewritten_kinds(input_form), r@),
{
    let root = parsed.syntax();
    match input_form {
        InputForm::Commentaria => format_snipx_region(&root),
        InputForm::Marginalia => format_host(&root, SyntaxKind::LineComment, SyntaxKind::Fence),
        InputForm::Intralinea => format_host(&root, SyntaxKind::IntralineaBlock, SyntaxKind::IntralineaBlock),
    }
}

/// `r` is what formatting `source` gives by way of its parse `p` (as
/// `parse` states it): the parse's diagnostics, and the formatted tree
/// when there are none.
pub open spec fn formatted_by(source: Seq<char>, input_form: InputForm, p: Parse, r: FormatResult) -> bool {
    &&& parsed_from(source, input_form, p)
    &&& same_diagnostics(r.diagnostics@, p.diagnostics@)
    &&& (r.diagnostics@.len() == 0 ==> r.output@ == tree_format(&p.tree, input_form))
}

/// Formats SnipX source. Source with parse diagnostics comes back
/// unchanged, with those diagnostics; other source comes back as its
/// lossless parse tree formatted.
pub fn format(source: &str, options: FormatOptions) -> (r: FormatResult)
    ensures
        exists|p: Parse| #[trigger] formatted_by(source@, options.input_form, p, r),
        diagnostics_located(r.diagnostics@, utf8_len(source@) as int),
        r.diagnostics@.len() > 0 ==> r.output@ == source@,
{
    let parsed = parse(source, ParseOptions { input_form: options.input_form });
    let diagnostics = copy_diagnostics(parsed.diagnostics());
    assert(diagnostics_located(diagnostics@, utf8_len(source@) as int)) by {
        assert forall|k: int| 0 <= k < diagnostics@.len() implies (#[trigger] diagnostics@[k]).span matches Some(span) && span.start <= span.end <= utf8_len(source@) && !diagnostics@[k].code.is_fragile() by {
            assert(diagnostics@[k].same(&parsed.diagnostics@[k]));
        }
    }
    assert(same_diagnostics(diagnostics@, parsed.diagnostics@));
    if diagnostics.len() > 0 {
        let r = FormatResult { output: string_of(chars_of(source).as_slice()), diagnostics };
        assert(formatted_by(source@, options.input_form, parsed, r));
        return r;
    }
    let output = format_tree(&parsed, options.input_form);
    let r = FormatResult { output: string_of(output.as_slice()), diagnostics };
    assert(formatted_by(source@, options.input_form, parsed, r));
    r
}


/// Formatting never separates an opening character from the part after
/// it: after `~` (a text-span snippet's marker), `@`, `[`, `{`, a
/// backtick or `"`, any part other than a decoration `::` is appended
/// directly, so `~[Alice]` stays one text-span snippet.
pub proof fn lemma_openers_join_directly(output: Seq<char>, part: Seq<char>)
    requires
        output.len() > 0,
        output.last() == '~' || output.last() == '@' || output.last() == '[' || output.last() == '{'
            || output.last() == '`' || output.last() == '"',
        !(part.len() >= 2 && part[0] == ':' && part[1] == ':'),
    ensures
        append_part_spec(output, part) == output + part,
{
    if part.len() == 0 {
        assert(output + part =~= output);
    } else if trims_before(part) {
        assert(trim_spaces_end(output) == output);
    }
}


/// `output` with its trailing spaces removed is a prefix of it that does
/// not end in a space, and only spaces follow it.
proof fn lemma_trim_spaces_end(output: Seq<char>)
    ensures
        ({
            let t = trim_spaces_end(output);
            &&& t.len() <= output.len()
            &&& t == output.subrange(0, t.len() as int)
            &&& t.len() > 0 ==> t.last() != ' '
            &&& forall|k: int| t.len() <= k < output.len() ==> output[k] == ' '
        }),
    decreases output.len(),
{
    if output.len() > 0 && output.last() == ' ' {
        lemma_trim_spaces_end(output.drop_last());
        let t = trim_spaces_end(output.drop_last());
        assert(output.drop_last().subrange(0, t.len() as int) =~= output.subrange(0, t.len() as int));
        assert forall|k: int| t.len() <= k < output.len() implies output[k] == ' ' by {
            if k < output.len() - 1 {
                assert(output.drop_last()[k] == output[k]);
            }
        }
    } else {
        assert(output.subrange(0, output.len() as int) =~= output);
    }
}

/// A part that opens with `.`, `,` or `;` attaches to what comes before
/// it: the spaces at the end of the output are dropped and nothing is put
/// between.
pub proof fn lemma_punctuation_attaches(output: Seq<char>, part: Seq<char>)
    requires
        part.len() > 0,
        part[0] == '.' || part[0] == ',' || part[0] == ';',
    ensures
        ({
            let r = append_part_spec(output, part);
            let p = r.len() - part.len();
            &&& 0 <= p <= output.len()
            &&& r == output.subrange(0, p) + part
            &&& p > 0 ==> output[p - 1] != ' '
            &&& forall|k: int| p <= k < output.len() ==> output[k] == ' '
        }),
{
    lemma_trim_spaces_end(output);
}

/// Closing brackets attach to what comes before them, and two words are
/// separated by exactly one space: a part that opens with neither
/// punctuation, a closing bracket nor `::`, after output that ends in
/// neither an opening character nor `:`, follows one space.
pub proof fn lemma_words_are_spaced(output: Seq<char>, part: Seq<char>)
    requires
        output.len() > 0,
        part.len() > 0,
    ensures
        (part[0] == ']' || part[0] == '}') ==> append_part_spec(output, part) == output + part,
        !(part[0] == '.' || part[0] == ',' || part[0] == ';' || part[0] == ']' || part[0] == '}')
            && !(part.len() >= 2 && part[0] == ':' && part[1] == ':') && !(output.last() == '~'
            || output.last() == '@' || output.last() == '[' || output.last() == '{' || output.last()
            == '`' || output.last() == '"' || output.last() == ':') ==> append_part_spec(output, part)
            == output + seq![' '] + part,
{
}

} // verus!
