//! Typed views of syntax nodes and the queries over them.
use vstd::prelude::*;
use crate::syntax::SyntaxKind;
use crate::tree::{
    children_spec, indices_of, kind_in, lemma_selection, lists_selected, node_range_spec, parent_spec, selected,
    selection, start_kind, Element, SyntaxNode, SyntaxTree,
};
use crate::text::string_of_range;

verus! {

/// A typed view of a syntax node of certain kinds.
pub trait AstNode<'a>: Sized {
    /// The kinds of node this view accepts.
    spec fn node_kinds() -> Seq<SyntaxKind>;

    /// The node viewed.
    spec fn node(&self) -> SyntaxNode<'a>;

    fn can_cast(kind: SyntaxKind) -> (r: bool)
        ensures
            r == Self::node_kinds().contains(kind),
    ;

    fn cast(node: SyntaxNode<'a>) -> (r: Option<Self>)
        requires
            node.valid(),
        ensures
            r is Some <==> Self::node_kinds().contains(start_kind(node.tree.events@[node.index as int])),
            r matches Some(x) ==> x.node() == node,
    ;

    fn syntax(&self) -> (r: SyntaxNode<'a>)
        ensures
            r == self.node(),
    ;

    /// The node's source text.
    fn text(&self) -> (r: String)
        requires
            self.node().valid(),
        ensures
            ({
                let range = node_range_spec(self.node().tree, self.node().index as int);
                r@ == self.node().tree.source@.subrange(range.0, range.1)
            }),
    ;
}

#[derive(Debug, Clone, Copy)]
pub struct Root<'a> {
    pub syntax: SyntaxNode<'a>,
}

/// The node kinds that a `Root` views.
pub open spec fn root_kinds() -> Seq<SyntaxKind> {
    seq![SyntaxKind::Root]
}

pub open spec fn root_indices<'a>(nodes: Seq<Root<'a>>) -> Seq<usize> {
    nodes.map_values(|n: Root<'a>| n.syntax.index)
}

/// Views each node as a `Root`.
fn wrap_root<'a>(nodes: Vec<SyntaxNode<'a>>) -> (r: Vec<Root<'a>>)
    ensures
        r@.len() == nodes@.len(),
        forall|k: int| 0 <= k < r@.len() ==> (#[trigger] r@[k]).syntax == nodes@[k],
        root_indices(r@) == indices_of(nodes@),
{
    let mut r: Vec<Root<'a>> = Vec::new();
    let mut k: usize = 0;
    while k < nodes.len()
        invariant
            k <= nodes@.len(),
            r@.len() == k,
            forall|u: int| 0 <= u < k ==> (#[trigger] r@[u]).syntax == nodes@[u],
        decreases nodes@.len() - k,
    {
        r.push(Root { syntax: nodes[k] });
        k = k + 1;
    }
    assert(root_indices(r@) =~= indices_of(nodes@));
    r
}

#[derive(Debug, Clone, Copy)]
pub struct SnipxRegion<'a> {
    pub syntax: SyntaxNode<'a>,
}

/// The node kinds that a `SnipxRegion` views.
pub open spec fn snipx_region_kinds() -> Seq<SyntaxKind> {
    seq![SyntaxKind::Root, SyntaxKind::LineComment, SyntaxKind::Fence, SyntaxKind::IntralineaBlock]
}

pub open spec fn snipx_region_indices<'a>(nodes: Seq<SnipxRegion<'a>>) -> Seq<usize> {
    nodes.map_values(|n: SnipxRegion<'a>| n.syntax.index)
}

/// Views each node as a `SnipxRegion`.
fn wrap_snipx_region<'a>(nodes: Vec<SyntaxNode<'a>>) -> (r: Vec<SnipxRegion<'a>>)
    ensures
        r@.len() == nodes@.len(),
        forall|k: int| 0 <= k < r@.len() ==> (#[trigger] r@[k]).syntax == nodes@[k],
        snipx_region_indices(r@) == indices_of(nodes@),
{
    let mut r: Vec<SnipxRegion<'a>> = Vec::new();
    let mut k: usize = 0;
    while k < nodes.len()
        invariant
            k <= nodes@.len(),
            r@.len() == k,
            forall|u: int| 0 <= u < k ==> (#[trigger] r@[u]).syntax == nodes@[u],
        decreases nodes@.len() - k,
    {
        r.push(SnipxRegion { syntax: nodes[k] });
        k = k + 1;
    }
    assert(snipx_region_indices(r@) =~= indices_of(nodes@));
    r
}

#[derive(Debug, Clone, Copy)]
pub struct Statement<'a> {
    pub syntax: SyntaxNode<'a>,
}

/// The node kinds that a `Statement` views.
pub open spec fn statement_kinds() -> Seq<SyntaxKind> {
    seq![SyntaxKind::Statement]
}

pub open spec fn statement_indices<'a>(nodes: Seq<Statement<'a>>) -> Seq<usize> {
    nodes.map_values(|n: Statement<'a>| n.syntax.index)
}

/// Views each node as a `Statement`.
fn wrap_statement<'a>(nodes: Vec<SyntaxNode<'a>>) -> (r: Vec<Statement<'a>>)
    ensures
        r@.len() == nodes@.len(),
        forall|k: int| 0 <= k < r@.len() ==> (#[trigger] r@[k]).syntax == nodes@[k],
        statement_indices(r@) == indices_of(nodes@),
{
    let mut r: Vec<Statement<'a>> = Vec::new();
    let mut k: usize = 0;
    while k < nodes.len()
        invariant
            k <= nodes@.len(),
            r@.len() == k,
            forall|u: int| 0 <= u < k ==> (#[trigger] r@[u]).syntax == nodes@[u],
        decreases nodes@.len() - k,
    {
        r.push(Statement { syntax: nodes[k] });
        k = k + 1;
    }
    assert(statement_indices(r@) =~= indices_of(nodes@));
    r
}

#[derive(Debug, Clone, Copy)]
pub struct Subject<'a> {
    pub syntax: SyntaxNode<'a>,
}

/// The node kinds that a `Subject` views.
pub open spec fn subject_kinds() -> Seq<SyntaxKind> {
    seq![SyntaxKind::Subject]
}

pub open spec fn subject_indices<'a>(nodes: Seq<Subject<'a>>) -> Seq<usize> {
    nodes.map_values(|n: Subject<'a>| n.syntax.index)
}

/// Views each node as a `Subject`.
fn wrap_subject<'a>(nodes: Vec<SyntaxNode<'a>>) -> (r: Vec<Subject<'a>>)
    ensures
        r@.len() == nodes@.len(),
        forall|k: int| 0 <= k < r@.len() ==> (#[trigger] r@[k]).syntax == nodes@[k],
        subject_indices(r@) == indices_of(nodes@),
{
    let mut r: Vec<Subject<'a>> = Vec::new();
    let mut k: usize = 0;
    while k < nodes.len()
        invariant
            k <= nodes@.len(),
            r@.len() == k,
            forall|u: int| 0 <= u < k ==> (#[trigger] r@[u]).syntax == nodes@[u],
        decreases nodes@.len() - k,
    {
        r.push(Subject { syntax: nodes[k] });
        k = k + 1;
    }
    assert(subject_indices(r@) =~= indices_of(nodes@));
    r
}

#[derive(Debug, Clone, Copy)]
pub struct Predicate<'a> {
    pub syntax: SyntaxNode<'a>,
}

/// The node kinds that a `Predicate` views.
pub open spec fn predicate_kinds() -> Seq<SyntaxKind> {
    seq![SyntaxKind::Predicate]
}

pub open spec fn predicate_indices<'a>(nodes: Seq<Predicate<'a>>) -> Seq<usize> {
    nodes.map_values(|n: Predicate<'a>| n.syntax.index)
}

/// Views each node as a `Predicate`.
fn wrap_predicate<'a>(nodes: Vec<SyntaxNode<'a>>) -> (r: Vec<Predicate<'a>>)
    ensures
        r@.len() == nodes@.len(),
        forall|k: int| 0 <= k < r@.len() ==> (#[trigger] r@[k]).syntax == nodes@[k],
        predicate_indices(r@) == indices_of(nodes@),
{
    let mut r: Vec<Predicate<'a>> = Vec::new();
    let mut k: usize = 0;
    while k < nodes.len()
        invariant
            k <= nodes@.len(),
            r@.len() == k,
            forall|u: int| 0 <= u < k ==> (#[trigger] r@[u]).syntax == nodes@[u],
        decreases nodes@.len() - k,
    {
        r.push(Predicate { syntax: nodes[k] });
        k = k + 1;
    }
    assert(predicate_indices(r@) =~= indices_of(nodes@));
    r
}

#[derive(Debug, Clone, Copy)]
pub struct Object<'a> {
    pub syntax: SyntaxNode<'a>,
}

/// The node kinds that a `Object` views.
pub open spec fn object_kinds() -> Seq<SyntaxKind> {
    seq![SyntaxKind::Object]
}

pub open spec fn object_indices<'a>(nodes: Seq<Object<'a>>) -> Seq<usize> {
    nodes.map_values(|n: Object<'a>| n.syntax.index)
}

/// Views each node as a `Object`.
fn wrap_object<'a>(nodes: Vec<SyntaxNode<'a>>) -> (r: Vec<Object<'a>>)
    ensures
        r@.len() == nodes@.len(),
        forall|k: int| 0 <= k < r@.len() ==> (#[trigger] r@[k]).syntax == nodes@[k],
        object_indices(r@) == indices_of(nodes@),
{
    let mut r: Vec<Object<'a>> = Vec::new();
    let mut k: usize = 0;
    while k < nodes.len()
        invariant
            k <= nodes@.len(),
            r@.len() == k,
            forall|u: int| 0 <= u < k ==> (#[trigger] r@[u]).syntax == nodes@[u],
        decreases nodes@.len() - k,
    {
        r.push(Object { syntax: nodes[k] });
        k = k + 1;
    }
    assert(object_indices(r@) =~= indices_of(nodes@));
    r
}

#[derive(Debug, Clone, Copy)]
pub struct ObjectList<'a> {
    pub syntax: SyntaxNode<'a>,
}

/// The node kinds that a `ObjectList` views.
pub open spec fn object_list_kinds() -> Seq<SyntaxKind> {
    seq![SyntaxKind::ObjectList]
}

pub open spec fn object_list_indices<'a>(nodes: Seq<ObjectList<'a>>) -> Seq<usize> {
    nodes.map_values(|n: ObjectList<'a>| n.syntax.index)
}

/// Views each node as a `ObjectList`.
fn wrap_object_list<'a>(nodes: Vec<SyntaxNode<'a>>) -> (r: Vec<ObjectList<'a>>)
    ensures
        r@.len() == nodes@.len(),
        forall|k: int| 0 <= k < r@.len() ==> (#[trigger] r@[k]).syntax == nodes@[k],
        object_list_indices(r@) == indices_of(nodes@),
{
    let mut r: Vec<ObjectList<'a>> = Vec::new();
    let mut k: usize = 0;
    while k < nodes.len()
        invariant
            k <= nodes@.len(),
            r@.len() == k,
            forall|u: int| 0 <= u < k ==> (#[trigger] r@[u]).syntax == nodes@[u],
        decreases nodes@.len() - k,
    {
        r.push(ObjectList { syntax: nodes[k] });
        k = k + 1;
    }
    assert(object_list_indices(r@) =~= indices_of(nodes@));
    r
}

#[derive(Debug, Clone, Copy)]
pub struct Snippet<'a> {
    pub syntax: SyntaxNode<'a>,
}

/// The node kinds that a `Snippet` views.
pub open spec fn snippet_kinds() -> Seq<SyntaxKind> {
    seq![SyntaxKind::Snippet]
}

pub open spec fn snippet_indices<'a>(nodes: Seq<Snippet<'a>>) -> Seq<usize> {
    nodes.map_values(|n: Snippet<'a>| n.syntax.index)
}

/// Views each node as a `Snippet`.
fn wrap_snippet<'a>(nodes: Vec<SyntaxNode<'a>>) -> (r: Vec<Snippet<'a>>)
    ensures
        r@.len() == nodes@.len(),
        forall|k: int| 0 <= k < r@.len() ==> (#[trigger] r@[k]).syntax == nodes@[k],
        snippet_indices(r@) == indices_of(nodes@),
{
    let mut r: Vec<Snippet<'a>> = Vec::new();
    let mut k: usize = 0;
    while k < nodes.len()
        invariant
            k <= nodes@.len(),
            r@.len() == k,
            forall|u: int| 0 <= u < k ==> (#[trigger] r@[u]).syntax == nodes@[u],
        decreases nodes@.len() - k,
    {
        r.push(Snippet { syntax: nodes[k] });
        k = k + 1;
    }
    assert(snippet_indices(r@) =~= indices_of(nodes@));
    r
}

#[derive(Debug, Clone, Copy)]
pub struct RangeSnippet<'a> {
    pub syntax: SyntaxNode<'a>,
}

/// The node kinds that a `RangeSnippet` views.
pub open spec fn range_snippet_kinds() -> Seq<SyntaxKind> {
    seq![SyntaxKind::RangeSnippet]
}

pub open spec fn range_snippet_indices<'a>(nodes: Seq<RangeSnippet<'a>>) -> Seq<usize> {
    nodes.map_values(|n: RangeSnippet<'a>| n.syntax.index)
}

/// Views each node as a `RangeSnippet`.
fn wrap_range_snippet<'a>(nodes: Vec<SyntaxNode<'a>>) -> (r: Vec<RangeSnippet<'a>>)
    ensures
        r@.len() == nodes@.len(),
        forall|k: int| 0 <= k < r@.len() ==> (#[trigger] r@[k]).syntax == nodes@[k],
        range_snippet_indices(r@) == indices_of(nodes@),
{
    let mut r: Vec<RangeSnippet<'a>> = Vec::new();
    let mut k: usize = 0;
    while k < nodes.len()
        invariant
            k <= nodes@.len(),
            r@.len() == k,
            forall|u: int| 0 <= u < k ==> (#[trigger] r@[u]).syntax == nodes@[u],
        decreases nodes@.len() - k,
    {
        r.push(RangeSnippet { syntax: nodes[k] });
        k = k + 1;
    }
    assert(range_snippet_indices(r@) =~= indices_of(nodes@));
    r
}

#[derive(Debug, Clone, Copy)]
pub struct Capture<'a> {
    pub syntax: SyntaxNode<'a>,
}

/// The node kinds that a `Capture` views.
pub open spec fn capture_kinds() -> Seq<SyntaxKind> {
    seq![SyntaxKind::Capture]
}

pub open spec fn capture_indices<'a>(nodes: Seq<Capture<'a>>) -> Seq<usize> {
    nodes.map_values(|n: Capture<'a>| n.syntax.index)
}

/// Views each node as a `Capture`.
fn wrap_capture<'a>(nodes: Vec<SyntaxNode<'a>>) -> (r: Vec<Capture<'a>>)
    ensures
        r@.len() == nodes@.len(),
        forall|k: int| 0 <= k < r@.len() ==> (#[trigger] r@[k]).syntax == nodes@[k],
        capture_indices(r@) == indices_of(nodes@),
{
    let mut r: Vec<Capture<'a>> = Vec::new();
    let mut k: usize = 0;
    while k < nodes.len()
        invariant
            k <= nodes@.len(),
            r@.len() == k,
            forall|u: int| 0 <= u < k ==> (#[trigger] r@[u]).syntax == nodes@[u],
        decreases nodes@.len() - k,
    {
        r.push(Capture { syntax: nodes[k] });
        k = k + 1;
    }
    assert(capture_indices(r@) =~= indices_of(nodes@));
    r
}

#[derive(Debug, Clone, Copy)]
pub struct Directive<'a> {
    pub syntax: SyntaxNode<'a>,
}

/// The node kinds that a `Directive` views.
pub open spec fn directive_kinds() -> Seq<SyntaxKind> {
    seq![SyntaxKind::Directive, SyntaxKind::TargetDirective, SyntaxKind::ProfileDirective]
}

pub open spec fn directive_indices<'a>(nodes: Seq<Directive<'a>>) -> Seq<usize> {
    nodes.map_values(|n: Directive<'a>| n.syntax.index)
}

/// Views each node as a `Directive`.
fn wrap_directive<'a>(nodes: Vec<SyntaxNode<'a>>) -> (r: Vec<Directive<'a>>)
    ensures
        r@.len() == nodes@.len(),
        forall|k: int| 0 <= k < r@.len() ==> (#[trigger] r@[k]).syntax == nodes@[k],
        directive_indices(r@) == indices_of(nodes@),
{
    let mut r: Vec<Directive<'a>> = Vec::new();
    let mut k: usize = 0;
    while k < nodes.len()
        invariant
            k <= nodes@.len(),
            r@.len() == k,
            forall|u: int| 0 <= u < k ==> (#[trigger] r@[u]).syntax == nodes@[u],
        decreases nodes@.len() - k,
    {
        r.push(Directive { syntax: nodes[k] });
        k = k + 1;
    }
    assert(directive_indices(r@) =~= indices_of(nodes@));
    r
}

#[derive(Debug, Clone, Copy)]
pub struct Decoration<'a> {
    pub syntax: SyntaxNode<'a>,
}

/// The node kinds that a `Decoration` views.
pub open spec fn decoration_kinds() -> Seq<SyntaxKind> {
    seq![SyntaxKind::Decoration]
}

pub open spec fn decoration_indices<'a>(nodes: Seq<Decoration<'a>>) -> Seq<usize> {
    nodes.map_values(|n: Decoration<'a>| n.syntax.index)
}

/// Views each node as a `Decoration`.
fn wrap_decoration<'a>(nodes: Vec<SyntaxNode<'a>>) -> (r: Vec<Decoration<'a>>)
    ensures
        r@.len() == nodes@.len(),
        forall|k: int| 0 <= k < r@.len() ==> (#[trigger] r@[k]).syntax == nodes@[k],
        decoration_indices(r@) == indices_of(nodes@),
{
    let mut r: Vec<Decoration<'a>> = Vec::new();
    let mut k: usize = 0;
    while k < nodes.len()
        invariant
            k <= nodes@.len(),
            r@.len() == k,
            forall|u: int| 0 <= u < k ==> (#[trigger] r@[u]).syntax == nodes@[u],
        decreases nodes@.len() - k,
    {
        r.push(Decoration { syntax: nodes[k] });
        k = k + 1;
    }
    assert(decoration_indices(r@) =~= indices_of(nodes@));
    r
}

#[derive(Debug, Clone, Copy)]
pub struct IntralineaBlock<'a> {
    pub syntax: SyntaxNode<'a>,
}

/// The node kinds that a `IntralineaBlock` views.
pub open spec fn intralinea_block_kinds() -> Seq<SyntaxKind> {
    seq![SyntaxKind::IntralineaBlock]
}

pub open spec fn intralinea_block_indices<'a>(nodes: Seq<IntralineaBlock<'a>>) -> Seq<usize> {
    nodes.map_values(|n: IntralineaBlock<'a>| n.syntax.index)
}

/// Views each node as a `IntralineaBlock`.
fn wrap_intralinea_block<'a>(nodes: Vec<SyntaxNode<'a>>) -> (r: Vec<IntralineaBlock<'a>>)
    ensures
        r@.len() == nodes@.len(),
        forall|k: int| 0 <= k < r@.len() ==> (#[trigger] r@[k]).syntax == nodes@[k],
        intralinea_block_indices(r@) == indices_of(nodes@),
{
    let mut r: Vec<IntralineaBlock<'a>> = Vec::new();
    let mut k: usize = 0;
    while k < nodes.len()
        invariant
            k <= nodes@.len(),
            r@.len() == k,
            forall|u: int| 0 <= u < k ==> (#[trigger] r@[u]).syntax == nodes@[u],
        decreases nodes@.len() - k,
    {
        r.push(IntralineaBlock { syntax: nodes[k] });
        k = k + 1;
    }
    assert(intralinea_block_indices(r@) =~= indices_of(nodes@));
    r
}

impl<'a> AstNode<'a> for Root<'a> {
    open spec fn node_kinds() -> Seq<SyntaxKind> {
        root_kinds()
    }

    open spec fn node(&self) -> SyntaxNode<'a> {
        self.syntax
    }

    fn can_cast(kind: SyntaxKind) -> (r: bool) {
        let r = kind_in(kind, &[SyntaxKind::Root]);
        proof {
            assert([SyntaxKind::Root]@ =~= root_kinds());
        }
        r
    }

    fn cast(node: SyntaxNode<'a>) -> (r: Option<Self>) {
        if Self::can_cast(node.kind()) {
            Some(Root { syntax: node })
        } else {
            None
        }
    }

    fn syntax(&self) -> (r: SyntaxNode<'a>) {
        self.syntax
    }

    fn text(&self) -> (r: String) {
        self.syntax.text()
    }
}

impl<'a> AstNode<'a> for SnipxRegion<'a> {
    open spec fn node_kinds() -> Seq<SyntaxKind> {
        snipx_region_kinds()
    }

    open spec fn node(&self) -> SyntaxNode<'a> {
        self.syntax
    }

    fn can_cast(kind: SyntaxKind) -> (r: bool) {
        let r = kind_in(kind, &[SyntaxKind::Root, SyntaxKind::LineComment, SyntaxKind::Fence, SyntaxKind::IntralineaBlock]);
        proof {
            assert([SyntaxKind::Root, SyntaxKind::LineComment, SyntaxKind::Fence, SyntaxKind::IntralineaBlock]@ =~= snipx_region_kinds());
        }
        r
    }

    fn cast(node: SyntaxNode<'a>) -> (r: Option<Self>) {
        if Self::can_cast(node.kind()) {
            Some(SnipxRegion { syntax: node })
        } else {
            None
        }
    }

    fn syntax(&self) -> (r: SyntaxNode<'a>) {
        self.syntax
    }

    fn text(&self) -> (r: String) {
        self.syntax.text()
    }
}

impl<'a> AstNode<'a> for Statement<'a> {
    open spec fn node_kinds() -> Seq<SyntaxKind> {
        statement_kinds()
    }

    open spec fn node(&self) -> SyntaxNode<'a> {
        self.syntax
    }

    fn can_cast(kind: SyntaxKind) -> (r: bool) {
        let r = kind_in(kind, &[SyntaxKind::Statement]);
        proof {
            assert([SyntaxKind::Statement]@ =~= statement_kinds());
        }
        r
    }

    fn cast(node: SyntaxNode<'a>) -> (r: Option<Self>) {
        if Self::can_cast(node.kind()) {
            Some(Statement { syntax: node })
        } else {
            None
        }
    }

    fn syntax(&self) -> (r: SyntaxNode<'a>) {
        self.syntax
    }

    fn text(&self) -> (r: String) {
        self.syntax.text()
    }
}

impl<'a> AstNode<'a> for Subject<'a> {
    open spec fn node_kinds() -> Seq<SyntaxKind> {
        subject_kinds()
    }

    open spec fn node(&self) -> SyntaxNode<'a> {
        self.syntax
    }

    fn can_cast(kind: SyntaxKind) -> (r: bool) {
        let r = kind_in(kind, &[SyntaxKind::Subject]);
        proof {
            assert([SyntaxKind::Subject]@ =~= subject_kinds());
        }
        r
    }

    fn cast(node: SyntaxNode<'a>) -> (r: Option<Self>) {
        if Self::can_cast(node.kind()) {
            Some(Subject { syntax: node })
        } else {
            None
        }
    }

    fn syntax(&self) -> (r: SyntaxNode<'a>) {
        self.syntax
    }

    fn text(&self) -> (r: String) {
        self.syntax.text()
    }
}

impl<'a> AstNode<'a> for Predicate<'a> {
    open spec fn node_kinds() -> Seq<SyntaxKind> {
        predicate_kinds()
    }

    open spec fn node(&self) -> SyntaxNode<'a> {
        self.syntax
    }

    fn can_cast(kind: SyntaxKind) -> (r: bool) {
        let r = kind_in(kind, &[SyntaxKind::Predicate]);
        proof {
            assert([SyntaxKind::Predicate]@ =~= predicate_kinds());
        }
        r
    }

    fn cast(node: SyntaxNode<'a>) -> (r: Option<Self>) {
        if Self::can_cast(node.kind()) {
            Some(Predicate { syntax: node })
        } else {
            None
        }
    }

    fn syntax(&self) -> (r: SyntaxNode<'a>) {
        self.syntax
    }

    fn text(&self) -> (r: String) {
        self.syntax.text()
    }
}

impl<'a> AstNode<'a> for Object<'a> {
    open spec fn node_kinds() -> Seq<SyntaxKind> {
        object_kinds()
    }

    open spec fn node(&self) -> SyntaxNode<'a> {
        self.syntax
    }

    fn can_cast(kind: SyntaxKind) -> (r: bool) {
        let r = kind_in(kind, &[SyntaxKind::Object]);
        proof {
            assert([SyntaxKind::Object]@ =~= object_kinds());
        }
        r
    }

    fn cast(node: SyntaxNode<'a>) -> (r: Option<Self>) {
        if Self::can_cast(node.kind()) {
            Some(Object { syntax: node })
        } else {
            None
        }
    }

    fn syntax(&self) -> (r: SyntaxNode<'a>) {
        self.syntax
    }

    fn text(&self) -> (r: String) {
        self.syntax.text()
    }
}

impl<'a> AstNode<'a> for ObjectList<'a> {
    open spec fn node_kinds() -> Seq<SyntaxKind> {
        object_list_kinds()
    }

    open spec fn node(&self) -> SyntaxNode<'a> {
        self.syntax
    }

    fn can_cast(kind: SyntaxKind) -> (r: bool) {
        let r = kind_in(kind, &[SyntaxKind::ObjectList]);
        proof {
            assert([SyntaxKind::ObjectList]@ =~= object_list_kinds());
        }
        r
    }

    fn cast(node: SyntaxNode<'a>) -> (r: Option<Self>) {
        if Self::can_cast(node.kind()) {
            Some(ObjectList { syntax: node })
        } else {
            None
        }
    }

    fn syntax(&self) -> (r: SyntaxNode<'a>) {
        self.syntax
    }

    fn text(&self) -> (r: String) {
        self.syntax.text()
    }
}

impl<'a> AstNode<'a> for Snippet<'a> {
    open spec fn node_kinds() -> Seq<SyntaxKind> {
        snippet_kinds()
    }

    open spec fn node(&self) -> SyntaxNode<'a> {
        self.syntax
    }

    fn can_cast(kind: SyntaxKind) -> (r: bool) {
        let r = kind_in(kind, &[SyntaxKind::Snippet]);
        proof {
            assert([SyntaxKind::Snippet]@ =~= snippet_kinds());
        }
        r
    }

    fn cast(node: SyntaxNode<'a>) -> (r: Option<Self>) {
        if Self::can_cast(node.kind()) {
            Some(Snippet { syntax: node })
        } else {
            None
        }
    }

    fn syntax(&self) -> (r: SyntaxNode<'a>) {
        self.syntax
    }

    fn text(&self) -> (r: String) {
        self.syntax.text()
    }
}

impl<'a> AstNode<'a> for RangeSnippet<'a> {
    open spec fn node_kinds() -> Seq<SyntaxKind> {
        range_snippet_kinds()
    }

    open spec fn node(&self) -> SyntaxNode<'a> {
        self.syntax
    }

    fn can_cast(kind: SyntaxKind) -> (r: bool) {
        let r = kind_in(kind, &[SyntaxKind::RangeSnippet]);
        proof {
            assert([SyntaxKind::RangeSnippet]@ =~= range_snippet_kinds());
        }
        r
    }

    fn cast(node: SyntaxNode<'a>) -> (r: Option<Self>) {
        if Self::can_cast(node.kind()) {
            Some(RangeSnippet { syntax: node })
        } else {
            None
        }
    }

    fn syntax(&self) -> (r: SyntaxNode<'a>) {
        self.syntax
    }

    fn text(&self) -> (r: String) {
        self.syntax.text()
    }
}

impl<'a> AstNode<'a> for Capture<'a> {
    open spec fn node_kinds() -> Seq<SyntaxKind> {
        capture_kinds()
    }

    open spec fn node(&self) -> SyntaxNode<'a> {
        self.syntax
    }

    fn can_cast(kind: SyntaxKind) -> (r: bool) {
        let r = kind_in(kind, &[SyntaxKind::Capture]);
        proof {
            assert([SyntaxKind::Capture]@ =~= capture_kinds());
        }
        r
    }

    fn cast(node: SyntaxNode<'a>) -> (r: Option<Self>) {
        if Self::can_cast(node.kind()) {
            Some(Capture { syntax: node })
        } else {
            None
        }
    }

    fn syntax(&self) -> (r: SyntaxNode<'a>) {
        self.syntax
    }

    fn text(&self) -> (r: String) {
        self.syntax.text()
    }
}

impl<'a> AstNode<'a> for Directive<'a> {
    open spec fn node_kinds() -> Seq<SyntaxKind> {
        directive_kinds()
    }

    open spec fn node(&self) -> SyntaxNode<'a> {
        self.syntax
    }

    fn can_cast(kind: SyntaxKind) -> (r: bool) {
        let r = kind_in(kind, &[SyntaxKind::Directive, SyntaxKind::TargetDirective, SyntaxKind::ProfileDirective]);
        proof {
            assert([SyntaxKind::Directive, SyntaxKind::TargetDirective, SyntaxKind::ProfileDirective]@ =~= directive_kinds());
        }
        r
    }

    fn cast(node: SyntaxNode<'a>) -> (r: Option<Self>) {
        if Self::can_cast(node.kind()) {
            Some(Directive { syntax: node })
        } else {
            None
        }
    }

    fn syntax(&self) -> (r: SyntaxNode<'a>) {
        self.syntax
    }

    fn text(&self) -> (r: String) {
        self.syntax.text()
    }
}

impl<'a> AstNode<'a> for Decoration<'a> {
    open spec fn node_kinds() -> Seq<SyntaxKind> {
        decoration_kinds()
    }

    open spec fn node(&self) -> SyntaxNode<'a> {
        self.syntax
    }

    fn can_cast(kind: SyntaxKind) -> (r: bool) {
        let r = kind_in(kind, &[SyntaxKind::Decoration]);
        proof {
            assert([SyntaxKind::Decoration]@ =~= decoration_kinds());
        }
        r
    }

    fn cast(node: SyntaxNode<'a>) -> (r: Option<Self>) {
        if Self::can_cast(node.kind()) {
            Some(Decoration { syntax: node })
        } else {
            None
        }
    }

    fn syntax(&self) -> (r: SyntaxNode<'a>) {
        self.syntax
    }

    fn text(&self) -> (r: String) {
        self.syntax.text()
    }
}

impl<'a> AstNode<'a> for IntralineaBlock<'a> {
    open spec fn node_kinds() -> Seq<SyntaxKind> {
        intralinea_block_kinds()
    }

    open spec fn node(&self) -> SyntaxNode<'a> {
        self.syntax
    }

    fn can_cast(kind: SyntaxKind) -> (r: bool) {
        let r = kind_in(kind, &[SyntaxKind::IntralineaBlock]);
        proof {
            assert([SyntaxKind::IntralineaBlock]@ =~= intralinea_block_kinds());
        }
        r
    }

    fn cast(node: SyntaxNode<'a>) -> (r: Option<Self>) {
        if Self::can_cast(node.kind()) {
            Some(IntralineaBlock { syntax: node })
        } else {
            None
        }
    }

    fn syntax(&self) -> (r: SyntaxNode<'a>) {
        self.syntax
    }

    fn text(&self) -> (r: String) {
        self.syntax.text()
    }
}

} // verus!

verus! {

impl<'a> Root<'a> {
    /// The descendants that are statement nodes, in source order.
    pub fn statements(&self) -> (r: Vec<Statement<'a>>)
        requires
            self.syntax.valid(),
        ensures
            lists_selected(
                statement_indices(r@),
                self.syntax.tree.events@,
                self.syntax.index as int,
                statement_kinds(),
                true,
            ),
            forall|k: int|
                0 <= k < r@.len() ==> (#[trigger] r@[k]).syntax.tree == self.syntax.tree
                    && r@[k].syntax.valid(),
    {
        let nodes = self.syntax.descendants_of(&[SyntaxKind::Statement]);
        proof {
            assert([SyntaxKind::Statement]@ =~= statement_kinds());
        }
        wrap_statement(nodes)
    }

    /// The descendants that are directive nodes, in source order.
    pub fn directives(&self) -> (r: Vec<Directive<'a>>)
        requires
            self.syntax.valid(),
        ensures
            lists_selected(
                directive_indices(r@),
                self.syntax.tree.events@,
                self.syntax.index as int,
                directive_kinds(),
                true,
            ),
            forall|k: int|
                0 <= k < r@.len() ==> (#[trigger] r@[k]).syntax.tree == self.syntax.tree
                    && r@[k].syntax.valid(),
    {
        let nodes = self.syntax.descendants_of(&[SyntaxKind::Directive, SyntaxKind::TargetDirective, SyntaxKind::ProfileDirective]);
        proof {
            assert([SyntaxKind::Directive, SyntaxKind::TargetDirective, SyntaxKind::ProfileDirective]@ =~= directive_kinds());
        }
        wrap_directive(nodes)
    }
}

impl<'a> SnipxRegion<'a> {
    /// The children that are statement nodes, in source order.
    pub fn statements(&self) -> (r: Vec<Statement<'a>>)
        requires
            self.syntax.valid(),
        ensures
            lists_selected(
                statement_indices(r@),
                self.syntax.tree.events@,
                self.syntax.index as int,
                statement_kinds(),
                false,
            ),
            forall|k: int|
                0 <= k < r@.len() ==> (#[trigger] r@[k]).syntax.tree == self.syntax.tree
                    && r@[k].syntax.valid(),
    {
        let nodes = self.syntax.children_of(&[SyntaxKind::Statement]);
        proof {
            assert([SyntaxKind::Statement]@ =~= statement_kinds());
        }
        wrap_statement(nodes)
    }

    /// The children that are directive nodes, in source order.
    pub fn directives(&self) -> (r: Vec<Directive<'a>>)
        requires
            self.syntax.valid(),
        ensures
            lists_selected(
                directive_indices(r@),
                self.syntax.tree.events@,
                self.syntax.index as int,
                directive_kinds(),
                false,
            ),
            forall|k: int|
                0 <= k < r@.len() ==> (#[trigger] r@[k]).syntax.tree == self.syntax.tree
                    && r@[k].syntax.valid(),
    {
        let nodes = self.syntax.children_of(&[SyntaxKind::Directive, SyntaxKind::TargetDirective, SyntaxKind::ProfileDirective]);
        proof {
            assert([SyntaxKind::Directive, SyntaxKind::TargetDirective, SyntaxKind::ProfileDirective]@ =~= directive_kinds());
        }
        wrap_directive(nodes)
    }

    /// The children that are intralinea block nodes, in source order.
    pub fn intralinea_blocks(&self) -> (r: Vec<IntralineaBlock<'a>>)
        requires
            self.syntax.valid(),
        ensures
            lists_selected(
                intralinea_block_indices(r@),
                self.syntax.tree.events@,
                self.syntax.index as int,
                intralinea_block_kinds(),
                false,
            ),
            forall|k: int|
                0 <= k < r@.len() ==> (#[trigger] r@[k]).syntax.tree == self.syntax.tree
                    && r@[k].syntax.valid(),
    {
        let nodes = self.syntax.children_of(&[SyntaxKind::IntralineaBlock]);
        proof {
            assert([SyntaxKind::IntralineaBlock]@ =~= intralinea_block_kinds());
        }
        wrap_intralinea_block(nodes)
    }
}

impl<'a> Statement<'a> {
    /// The children that are predicate nodes, in source order.
    pub fn predicates(&self) -> (r: Vec<Predicate<'a>>)
        requires
            self.syntax.valid(),
        ensures
            lists_selected(
                predicate_indices(r@),
                self.syntax.tree.events@,
                self.syntax.index as int,
                predicate_kinds(),
                false,
            ),
            forall|k: int|
                0 <= k < r@.len() ==> (#[trigger] r@[k]).syntax.tree == self.syntax.tree
                    && r@[k].syntax.valid(),
    {
        let nodes = self.syntax.children_of(&[SyntaxKind::Predicate]);
        proof {
            assert([SyntaxKind::Predicate]@ =~= predicate_kinds());
        }
        wrap_predicate(nodes)
    }

    /// The children that are object list nodes, in source order.
    pub fn object_lists(&self) -> (r: Vec<ObjectList<'a>>)
        requires
            self.syntax.valid(),
        ensures
            lists_selected(
                object_list_indices(r@),
                self.syntax.tree.events@,
                self.syntax.index as int,
                object_list_kinds(),
                false,
            ),
            forall|k: int|
                0 <= k < r@.len() ==> (#[trigger] r@[k]).syntax.tree == self.syntax.tree
                    && r@[k].syntax.valid(),
    {
        let nodes = self.syntax.children_of(&[SyntaxKind::ObjectList]);
        proof {
            assert([SyntaxKind::ObjectList]@ =~= object_list_kinds());
        }
        wrap_object_list(nodes)
    }

    /// The children that are decoration nodes, in source order.
    pub fn decorations(&self) -> (r: Vec<Decoration<'a>>)
        requires
            self.syntax.valid(),
        ensures
            lists_selected(
                decoration_indices(r@),
                self.syntax.tree.events@,
                self.syntax.index as int,
                decoration_kinds(),
                false,
            ),
            forall|k: int|
                0 <= k < r@.len() ==> (#[trigger] r@[k]).syntax.tree == self.syntax.tree
                    && r@[k].syntax.valid(),
    {
        let nodes = self.syntax.children_of(&[SyntaxKind::Decoration]);
        proof {
            assert([SyntaxKind::Decoration]@ =~= decoration_kinds());
        }
        wrap_decoration(nodes)
    }

    /// The first child that is a subject node.
    pub fn subject(&self) -> (r: Option<Subject<'a>>)
        requires
            self.syntax.valid(),
        ensures
            r matches Some(x) ==> x.syntax.tree == self.syntax.tree && x.syntax.valid() && selected(
                self.syntax.tree.events@,
                self.syntax.index as int,
                x.syntax.index as int,
                subject_kinds(),
                false,
            ) && (forall|j: int|
                selected(
                    self.syntax.tree.events@,
                    self.syntax.index as int,
                    j,
                    subject_kinds(),
                    false,
                ) ==> x.syntax.index <= j),
            r is None ==> forall|j: int|
                !selected(
                    self.syntax.tree.events@,
                    self.syntax.index as int,
                    j,
                    subject_kinds(),
                    false,
                ),
    {
        let nodes = self.syntax.children_of(&[SyntaxKind::Subject]);
        proof {
            assert([SyntaxKind::Subject]@ =~= subject_kinds());
        }
        let ghost idx = indices_of(nodes@);
        if nodes.len() > 0 {
            proof {
                assert(idx[0] == nodes@[0].index);
                assert forall|j: int|
                    selected(
                        self.syntax.tree.events@,
                        self.syntax.index as int,
                        j,
                        subject_kinds(),
                        false,
                    ) implies nodes@[0].index <= j by {
                    let t = choose|t: int| 0 <= t < idx.len() && idx[t] == j;
                    if t > 0 {
                        assert(idx[0] < idx[t]);
                    }
                }
            }
            Some(Subject { syntax: nodes[0] })
        } else {
            proof {
                assert forall|j: int|
                    !selected(
                        self.syntax.tree.events@,
                        self.syntax.index as int,
                        j,
                        subject_kinds(),
                        false,
                    ) by {
                    if selected(
                        self.syntax.tree.events@,
                        self.syntax.index as int,
                        j,
                        subject_kinds(),
                        false,
                    ) {
                        let t = choose|t: int| 0 <= t < idx.len() && idx[t] == j;
                    }
                }
            }
            None
        }
    }

    /// The first child that is a predicate node.
    pub fn predicate(&self) -> (r: Option<Predicate<'a>>)
        requires
            self.syntax.valid(),
        ensures
            r matches Some(x) ==> x.syntax.tree == self.syntax.tree && x.syntax.valid() && selected(
                self.syntax.tree.events@,
                self.syntax.index as int,
                x.syntax.index as int,
                predicate_kinds(),
                false,
            ) && (forall|j: int|
                selected(
                    self.syntax.tree.events@,
                    self.syntax.index as int,
                    j,
                    predicate_kinds(),
                    false,
                ) ==> x.syntax.index <= j),
            r is None ==> forall|j: int|
                !selected(
                    self.syntax.tree.events@,
                    self.syntax.index as int,
                    j,
                    predicate_kinds(),
                    false,
                ),
    {
        let nodes = self.syntax.children_of(&[SyntaxKind::Predicate]);
        proof {
            assert([SyntaxKind::Predicate]@ =~= predicate_kinds());
        }
        let ghost idx = indices_of(nodes@);
        if nodes.len() > 0 {
            proof {
                assert(idx[0] == nodes@[0].index);
                assert forall|j: int|
                    selected(
                        self.syntax.tree.events@,
                        self.syntax.index as int,
                        j,
                        predicate_kinds(),
                        false,
                    ) implies nodes@[0].index <= j by {
                    let t = choose|t: int| 0 <= t < idx.len() && idx[t] == j;
                    if t > 0 {
                        assert(idx[0] < idx[t]);
                    }
                }
            }
            Some(Predicate { syntax: nodes[0] })
        } else {
            proof {
                assert forall|j: int|
                    !selected(
                        self.syntax.tree.events@,
                        self.syntax.index as int,
                        j,
                        predicate_kinds(),
                        false,
                    ) by {
                    if selected(
                        self.syntax.tree.events@,
                        self.syntax.index as int,
                        j,
                        predicate_kinds(),
                        false,
                    ) {
                        let t = choose|t: int| 0 <= t < idx.len() && idx[t] == j;
                    }
                }
            }
            None
        }
    }

    /// The first child that is a object list node.
    pub fn object_list(&self) -> (r: Option<ObjectList<'a>>)
        requires
            self.syntax.valid(),
        ensures
            r matches Some(x) ==> x.syntax.tree == self.syntax.tree && x.syntax.valid() && selected(
                self.syntax.tree.events@,
                self.syntax.index as int,
                x.syntax.index as int,
                object_list_kinds(),
                false,
            ) && (forall|j: int|
                selected(
                    self.syntax.tree.events@,
                    self.syntax.index as int,
                    j,
                    object_list_kinds(),
                    false,
                ) ==> x.syntax.index <= j),
            r is None ==> forall|j: int|
                !selected(
                    self.syntax.tree.events@,
                    self.syntax.index as int,
                    j,
                    object_list_kinds(),
                    false,
                ),
    {
        let nodes = self.syntax.children_of(&[SyntaxKind::ObjectList]);
        proof {
            assert([SyntaxKind::ObjectList]@ =~= object_list_kinds());
        }
        let ghost idx = indices_of(nodes@);
        if nodes.len() > 0 {
            proof {
                assert(idx[0] == nodes@[0].index);
                assert forall|j: int|
                    selected(
                        self.syntax.tree.events@,
                        self.syntax.index as int,
                        j,
                        object_list_kinds(),
                        false,
                    ) implies nodes@[0].index <= j by {
                    let t = choose|t: int| 0 <= t < idx.len() && idx[t] == j;
                    if t > 0 {
                        assert(idx[0] < idx[t]);
                    }
                }
            }
            Some(ObjectList { syntax: nodes[0] })
        } else {
            proof {
                assert forall|j: int|
                    !selected(
                        self.syntax.tree.events@,
                        self.syntax.index as int,
                        j,
                        object_list_kinds(),
                        false,
                    ) by {
                    if selected(
                        self.syntax.tree.events@,
                        self.syntax.index as int,
                        j,
                        object_list_kinds(),
                        false,
                    ) {
                        let t = choose|t: int| 0 <= t < idx.len() && idx[t] == j;
                    }
                }
            }
            None
        }
    }
}

impl<'a> Subject<'a> {
    /// The descendants that are snippet nodes, in source order.
    pub fn snippets(&self) -> (r: Vec<Snippet<'a>>)
        requires
            self.syntax.valid(),
        ensures
            lists_selected(
                snippet_indices(r@),
                self.syntax.tree.events@,
                self.syntax.index as int,
                snippet_kinds(),
                true,
            ),
            forall|k: int|
                0 <= k < r@.len() ==> (#[trigger] r@[k]).syntax.tree == self.syntax.tree
                    && r@[k].syntax.valid(),
    {
        let nodes = self.syntax.descendants_of(&[SyntaxKind::Snippet]);
        proof {
            assert([SyntaxKind::Snippet]@ =~= snippet_kinds());
        }
        wrap_snippet(nodes)
    }

    /// The descendants that are range snippet nodes, in source order.
    pub fn range_snippets(&self) -> (r: Vec<RangeSnippet<'a>>)
        requires
            self.syntax.valid(),
        ensures
            lists_selected(
                range_snippet_indices(r@),
                self.syntax.tree.events@,
                self.syntax.index as int,
                range_snippet_kinds(),
                true,
            ),
            forall|k: int|
                0 <= k < r@.len() ==> (#[trigger] r@[k]).syntax.tree == self.syntax.tree
                    && r@[k].syntax.valid(),
    {
        let nodes = self.syntax.descendants_of(&[SyntaxKind::RangeSnippet]);
        proof {
            assert([SyntaxKind::RangeSnippet]@ =~= range_snippet_kinds());
        }
        wrap_range_snippet(nodes)
    }
}

impl<'a> ObjectList<'a> {
    /// The children that are object nodes, in source order.
    pub fn objects(&self) -> (r: Vec<Object<'a>>)
        requires
            self.syntax.valid(),
        ensures
            lists_selected(
                object_indices(r@),
                self.syntax.tree.events@,
                self.syntax.index as int,
                object_kinds(),
                false,
            ),
            forall|k: int|
                0 <= k < r@.len() ==> (#[trigger] r@[k]).syntax.tree == self.syntax.tree
                    && r@[k].syntax.valid(),
    {
        let nodes = self.syntax.children_of(&[SyntaxKind::Object]);
        proof {
            assert([SyntaxKind::Object]@ =~= object_kinds());
        }
        wrap_object(nodes)
    }
}

impl<'a> Snippet<'a> {
    /// The descendants that are capture nodes, in source order.
    pub fn captures(&self) -> (r: Vec<Capture<'a>>)
        requires
            self.syntax.valid(),
        ensures
            lists_selected(
                capture_indices(r@),
                self.syntax.tree.events@,
                self.syntax.index as int,
                capture_kinds(),
                true,
            ),
            forall|k: int|
                0 <= k < r@.len() ==> (#[trigger] r@[k]).syntax.tree == self.syntax.tree
                    && r@[k].syntax.valid(),
    {
        let nodes = self.syntax.descendants_of(&[SyntaxKind::Capture]);
        proof {
            assert([SyntaxKind::Capture]@ =~= capture_kinds());
        }
        wrap_capture(nodes)
    }
}

/// Node kinds that make a region hold SnipX items.
pub open spec fn item_kinds() -> Seq<SyntaxKind> {
    seq![
        SyntaxKind::Statement,
        SyntaxKind::Directive,
        SyntaxKind::TargetDirective,
        SyntaxKind::ProfileDirective,
        SyntaxKind::IntralineaBlock,
    ]
}

/// The node has a statement, directive or intralinea block as a child.
pub open spec fn has_items<'a>(node: SyntaxNode<'a>) -> bool {
    exists|j: int| selected(node.tree.events@, node.index as int, j, item_kinds(), false)
}

impl<'a> SnipxRegion<'a> {
    fn contains_snipx_items(&self) -> (r: bool)
        requires
            self.syntax.valid(),
        ensures
            r == has_items(self.syntax),
    {
        Self::contains_snipx_items_for(&self.syntax)
    }

    fn contains_snipx_items_for(node: &SyntaxNode<'a>) -> (r: bool)
        requires
            node.valid(),
        ensures
            r == has_items(*node),
    {
        let found = node.children_of(
            &[
                SyntaxKind::Statement,
                SyntaxKind::Directive,
                SyntaxKind::TargetDirective,
                SyntaxKind::ProfileDirective,
                SyntaxKind::IntralineaBlock,
            ],
        );
        proof {
            assert([
                SyntaxKind::Statement,
                SyntaxKind::Directive,
                SyntaxKind::TargetDirective,
                SyntaxKind::ProfileDirective,
                SyntaxKind::IntralineaBlock,
            ]@ =~= item_kinds());
            let idx = indices_of(found@);
            if found@.len() > 0 {
                assert(selected(node.tree.events@, node.index as int, idx[0] as int, item_kinds(), false));
            }
            if has_items(*node) {
                let j = choose|j: int| selected(node.tree.events@, node.index as int, j, item_kinds(), false);
                let t = choose|t: int| 0 <= t < idx.len() && idx[t] == j;
            }
        }
        found.len() > 0
    }
}

/// Whether the node opened at an index of `tree` holds SnipX items.
pub open spec fn items_at<'a>(tree: &'a SyntaxTree) -> spec_fn(usize) -> bool {
    |j: usize| has_items(SyntaxNode { tree, index: j })
}

/// The child regions of `node` that hold SnipX items; when there are
/// none, `node` itself if it holds items directly.
pub open spec fn regions_spec<'a>(node: SyntaxNode<'a>) -> Seq<usize> {
    let with_items = selection(node.tree.events@, node.index as int, snipx_region_kinds(), false).filter(
        items_at(node.tree),
    );
    if with_items.len() > 0 {
        with_items
    } else if has_items(node) {
        seq![node.index]
    } else {
        Seq::empty()
    }
}

impl<'a> Root<'a> {
    /// The regions that hold SnipX items: the child regions (comment
    /// lines, fences, intralinea blocks) that do, or else the root itself
    /// when it holds items directly.
    pub fn regions(&self) -> (r: Vec<SnipxRegion<'a>>)
        requires
            self.syntax.valid(),
        ensures
            snipx_region_indices(r@) == regions_spec(self.syntax),
            forall|k: int|
                0 <= k < r@.len() ==> (#[trigger] r@[k]).syntax.tree == self.syntax.tree
                    && r@[k].syntax.valid() && has_items(r@[k].syntax),
            forall|k: int|
                0 <= k < r@.len() ==> (selected(
                    self.syntax.tree.events@,
                    self.syntax.index as int,
                    (#[trigger] r@[k]).syntax.index as int,
                    snipx_region_kinds(),
                    false,
                ) || r@[k].syntax == self.syntax),
            has_items(self.syntax) ==> r@.len() > 0,
    {
        let candidates = self.syntax.children_of(
            &[
                SyntaxKind::Root,
                SyntaxKind::LineComment,
                SyntaxKind::Fence,
                SyntaxKind::IntralineaBlock,
            ],
        );
        proof {
            assert([
                SyntaxKind::Root,
                SyntaxKind::LineComment,
                SyntaxKind::Fence,
                SyntaxKind::IntralineaBlock,
            ]@ =~= snipx_region_kinds());
        }
        let mut child_regions: Vec<SnipxRegion<'a>> = Vec::new();
        let mut k: usize = 0;
        while k < candidates.len()
            invariant
                self.syntax.valid(),
                k <= candidates@.len(),
                lists_selected(
                    indices_of(candidates@),
                    self.syntax.tree.events@,
                    self.syntax.index as int,
                    snipx_region_kinds(),
                    false,
                ),
                forall|u: int|
                    0 <= u < candidates@.len() ==> (#[trigger] candidates@[u]).tree
                        == self.syntax.tree && candidates@[u].valid(),
                forall|u: int|
                    0 <= u < child_regions@.len() ==> (#[trigger] child_regions@[u]).syntax.tree
                        == self.syntax.tree && child_regions@[u].syntax.valid() && has_items(
                        child_regions@[u].syntax,
                    ) && selected(
                        self.syntax.tree.events@,
                        self.syntax.index as int,
                        child_regions@[u].syntax.index as int,
                        snipx_region_kinds(),
                        false,
                    ),
                snipx_region_indices(child_regions@) == indices_of(candidates@).take(k as int).filter(
                    items_at(self.syntax.tree),
                ),
            decreases candidates@.len() - k,
        {
            let region = SnipxRegion { syntax: candidates[k] };
            let ghost before = child_regions@;
            proof {
                assert(indices_of(candidates@)[k as int] == candidates@[k as int].index);
                let t1 = indices_of(candidates@).take(k + 1);
                assert(t1.drop_last() =~= indices_of(candidates@).take(k as int));
                assert(t1.last() == candidates@[k as int].index);
                assert(candidates@[k as int] == SyntaxNode { tree: self.syntax.tree, index: candidates@[k as int].index });
                assert(items_at(self.syntax.tree)(t1.last()) == has_items(candidates@[k as int]));
            }
            let holds = region.contains_snipx_items();
            if holds {
                child_regions.push(region);
                proof {
                    assert(snipx_region_indices(child_regions@) =~= snipx_region_indices(before).push(region.syntax.index));
                }
            }
            proof {
                let p = items_at(self.syntax.tree);
                let t1 = indices_of(candidates@).take(k + 1);
                assert(t1.len() > 0);
                reveal(Seq::filter);
                assert(t1.filter(p) == if p(t1.last()) {
                    t1.drop_last().filter(p).push(t1.last())
                } else {
                    t1.drop_last().filter(p)
                });
                assert(p(t1.last()) == holds);
            }
            k = k + 1;
        }
        proof {
            lemma_selection(indices_of(candidates@), self.syntax.tree.events@, self.syntax.index as int, snipx_region_kinds(), false);
            assert(indices_of(candidates@).take(candidates@.len() as int) =~= indices_of(candidates@));
        }
        if child_regions.len() > 0 {
            child_regions
        } else if SnipxRegion::contains_snipx_items_for(&self.syntax) {
            let mut r: Vec<SnipxRegion<'a>> = Vec::new();
            r.push(SnipxRegion { syntax: self.syntax });
            assert(snipx_region_indices(r@) =~= seq![self.syntax.index]);
            r
        } else {
            let r: Vec<SnipxRegion<'a>> = Vec::new();
            assert(snipx_region_indices(r@) =~= Seq::<usize>::empty());
            r
        }
    }
}

/// Among the object-list children `children` from `k` on, the
/// decorations that follow the object `me`, up to the next object;
/// `seen` once `me` has been passed.
pub open spec fn decorations_after(
    tree: &SyntaxTree,
    children: Seq<usize>,
    k: int,
    seen: bool,
    me: usize,
) -> Seq<usize>
    decreases children.len() - k,
{
    if k < 0 || k >= children.len() {
        Seq::empty()
    } else if !seen {
        decorations_after(tree, children, k + 1, children[k] == me, me)
    } else if start_kind(tree.events@[children[k] as int]) == SyntaxKind::Object {
        Seq::empty()
    } else if start_kind(tree.events@[children[k] as int]) == SyntaxKind::Decoration {
        seq![children[k]] + decorations_after(tree, children, k + 1, true, me)
    } else {
        decorations_after(tree, children, k + 1, true, me)
    }
}

/// The decorations of the object at `me`: those after it in the object
/// list that holds it, up to the next object.
pub open spec fn object_decorations(tree: &SyntaxTree, me: usize) -> Seq<usize> {
    match parent_spec(tree.events@, me as int) {
        Some(p) => if start_kind(tree.events@[p]) == SyntaxKind::ObjectList {
            decorations_after(
                tree,
                selection(tree.events@, p, seq![SyntaxKind::Object, SyntaxKind::Decoration], false),
                0,
                false,
                me,
            )
        } else {
            Seq::empty()
        },
        None => Seq::empty(),
    }
}

impl<'a> Object<'a> {
    /// The decorations that follow this object in its object list, up to
    /// the next object.
    pub fn decorations(&self) -> (r: Vec<Decoration<'a>>)
        requires
            self.syntax.valid(),
        ensures
            decoration_indices(r@) == object_decorations(self.syntax.tree, self.syntax.index),
            forall|k: int|
                0 <= k < r@.len() ==> (#[trigger] r@[k]).syntax.tree == self.syntax.tree
                    && r@[k].syntax.valid() && start_kind(
                    self.syntax.tree.events@[r@[k].syntax.index as int],
                ) == SyntaxKind::Decoration && r@[k].syntax.index > self.syntax.index,
    {
        let mut decorations: Vec<Decoration<'a>> = Vec::new();
        proof {
            assert(decoration_indices(decorations@) =~= Seq::<usize>::empty());
        }
        let parent = match self.syntax.parent() {
            Some(parent) => parent,
            None => {
                return decorations;
            },
        };
        if parent.kind() != SyntaxKind::ObjectList {
            return decorations;
        }
        let children = parent.children_of(&[SyntaxKind::Object, SyntaxKind::Decoration]);
        proof {
            assert([SyntaxKind::Object, SyntaxKind::Decoration]@ =~= seq![
                SyntaxKind::Object,
                SyntaxKind::Decoration,
            ]);
        }
        let mut seen_object = false;
        let mut k: usize = 0;
        while k < children.len()
            invariant
                self.syntax.valid(),
                parent.tree == self.syntax.tree,
                k <= children@.len(),
                lists_selected(
                    indices_of(children@),
                    parent.tree.events@,
                    parent.index as int,
                    seq![SyntaxKind::Object, SyntaxKind::Decoration],
                    false,
                ),
                forall|u: int|
                    0 <= u < children@.len() ==> (#[trigger] children@[u]).tree == parent.tree
                        && children@[u].valid(),
                seen_object ==> exists|u: int| 0 <= u < k && children@[u].index == self.syntax.index,
                forall|u: int|
                    0 <= u < decorations@.len() ==> (#[trigger] decorations@[u]).syntax.tree
                        == self.syntax.tree && decorations@[u].syntax.valid() && start_kind(
                        self.syntax.tree.events@[decorations@[u].syntax.index as int],
                    ) == SyntaxKind::Decoration && decorations@[u].syntax.index
                        > self.syntax.index,
                forall|u: int|
                    0 <= u < decorations@.len() ==> exists|v: int|
                        0 <= v < k && children@[v].index == (#[trigger] decorations@[u]).syntax.index,
                decoration_indices(decorations@) + decorations_after(
                    self.syntax.tree,
                    indices_of(children@),
                    k as int,
                    seen_object,
                    self.syntax.index,
                ) == decorations_after(self.syntax.tree, indices_of(children@), 0, false, self.syntax.index),
            ensures
                decoration_indices(decorations@) == decorations_after(
                    self.syntax.tree,
                    indices_of(children@),
                    0,
                    false,
                    self.syntax.index,
                ),
                forall|u: int|
                    0 <= u < decorations@.len() ==> (#[trigger] decorations@[u]).syntax.tree
                        == self.syntax.tree && decorations@[u].syntax.valid() && start_kind(
                        self.syntax.tree.events@[decorations@[u].syntax.index as int],
                    ) == SyntaxKind::Decoration && decorations@[u].syntax.index
                        > self.syntax.index,
            decreases children@.len() - k,
        {
            let child = children[k];
            proof {
                assert(indices_of(children@)[k as int] == child.index);
            }
            if !seen_object {
                seen_object = child.index == self.syntax.index;
                k = k + 1;
                continue;
            }
            let kind = child.kind();
            if kind == SyntaxKind::Object {
                break;
            }
            if kind == SyntaxKind::Decoration {
                proof {
                    let u = choose|u: int| 0 <= u < k && children@[u].index == self.syntax.index;
                    assert(indices_of(children@)[u] < indices_of(children@)[k as int]);
                }
                let ghost before = decorations@;
                decorations.push(Decoration { syntax: child });
                proof {
                    assert(decoration_indices(decorations@) =~= decoration_indices(before) + seq![child.index]);
                    let rest = decorations_after(self.syntax.tree, indices_of(children@), k + 1, true, self.syntax.index);
                    assert(decoration_indices(before) + (seq![child.index] + rest) =~= decoration_indices(decorations@) + rest);
                }
            }
            k = k + 1;
        }
        proof {
            lemma_selection(
                indices_of(children@),
                parent.tree.events@,
                parent.index as int,
                seq![SyntaxKind::Object, SyntaxKind::Decoration],
                false,
            );
        }
        decorations
    }
}

/// The text of the first identifier, node or token, among `elements`
/// from `k` on.
pub open spec fn first_identifier(tree: &SyntaxTree, elements: Seq<Element>, k: int) -> Option<Seq<char>>
    decreases elements.len() - k,
{
    if k < 0 || k >= elements.len() {
        None
    } else {
        match elements[k] {
            Element::Node(j) => if start_kind(tree.events@[j as int]) == SyntaxKind::Identifier {
                let range = node_range_spec(tree, j as int);
                Some(tree.source@.subrange(range.0, range.1))
            } else {
                first_identifier(tree, elements, k + 1)
            },
            Element::Token(kind, s, e) => if kind == SyntaxKind::Identifier {
                Some(tree.source@.subrange(s as int, e as int))
            } else {
                first_identifier(tree, elements, k + 1)
            },
        }
    }
}

impl<'a> Directive<'a> {
    /// The directive's name: its first identifier.
    pub fn name(&self) -> (r: Option<String>)
        requires
            self.syntax.valid(),
        ensures
            match first_identifier(
                self.syntax.tree,
                children_spec(self.syntax.tree.events@, self.syntax.index as int),
                0,
            ) {
                Some(text) => r matches Some(name) && name@ == text,
                None => r is None,
            },
    {
        let elements = self.syntax.children_with_tokens();
        let ghost all = children_spec(self.syntax.tree.events@, self.syntax.index as int);
        let mut k: usize = 0;
        while k < elements.len()
            invariant
                self.syntax.valid(),
                elements@ == all,
                all == children_spec(self.syntax.tree.events@, self.syntax.index as int),
                first_identifier(self.syntax.tree, all, k as int) == first_identifier(self.syntax.tree, all, 0),
                k <= elements@.len(),
                forall|t: int|
                    #![trigger elements@[t]]
                    0 <= t < elements@.len() ==> match elements@[t] {
                        Element::Node(j) => j < self.syntax.tree.events@.len(),
                        Element::Token(kind, s, e) => s <= e <= self.syntax.tree.source@.len(),
                    },
            decreases elements@.len() - k,
        {
            match elements[k] {
                Element::Node(j) => {
                    let node = SyntaxNode { tree: self.syntax.tree, index: j };
                    if node.kind() == SyntaxKind::Identifier {
                        return Some(node.text());
                    }
                },
                Element::Token(kind, s, e) => {
                    if kind == SyntaxKind::Identifier {
                        return Some(string_of_range(self.syntax.tree.source.as_slice(), s, e));
                    }
                },
            }
            k = k + 1;
        }
        None
    }
}

} // verus!
