//! Syntax trees stored as a pre-order event sequence over the source
//! characters, with node handles and navigation.
use vstd::prelude::*;
use crate::diagnostic::SourceSpan;
use crate::parser::offsets_of;
use crate::syntax::{nest_from, tile_end, tiles, TreeEvent, SyntaxKind};
use crate::text::{lemma_utf8_prefix_mono, string_of_range, utf8_len, utf8_prefix};

verus! {

/// A lossless syntax tree: `events` walk the tree in pre-order and the
/// tokens cover `source` exactly; `positions[k]` is the source position
/// (in characters) reached before event `k`, and `offsets[c]` the UTF-8
/// byte offset of character `c`.
#[derive(Debug)]
pub struct SyntaxTree {
    pub source: Vec<char>,
    pub offsets: Vec<usize>,
    pub events: Vec<TreeEvent>,
    pub positions: Vec<usize>,
}

impl SyntaxTree {
    pub open spec fn wf(&self) -> bool {
        &&& offsets_of(self.source@, self.offsets@)
        &&& tiles(self.events@, 0, self.source@.len() as int)
        &&& self.positions@.len() == self.events@.len() + 1
        &&& forall|k: int|
            0 <= k <= self.events@.len() ==> #[trigger] self.positions@[k] == tile_end(
                self.events@.take(k),
                0,
            )
        &&& forall|k: int|
            0 <= k <= self.events@.len() ==> #[trigger] self.positions@[k] <= self.source@.len()
        &&& tokens_inside(self.events@, self.source@.len() as int)
    }
}

/// Every token covers a range inside `0..len`.
pub open spec fn tokens_inside(events: Seq<TreeEvent>, len: int) -> bool {
    forall|k: int|
        #![trigger events[k]]
        0 <= k < events.len() ==> (events[k] matches TreeEvent::Token(_, s, e) ==> s <= e <= len)
}

pub proof fn lemma_tiles_tokens_inside(events: Seq<TreeEvent>, a: int, b: int)
    requires
        tiles(events, a, b),
        0 <= a,
    ensures
        tokens_inside(events, b),
    decreases events.len(),
{
    crate::syntax::lemma_tiles_end(events, a, b);
    if events.len() > 0 {
        let prefix = events.drop_last();
        match events.last() {
            TreeEvent::Token(_, s, e) => {
                lemma_tiles_tokens_inside(prefix, a, s as int);
            },
            _ => {
                lemma_tiles_tokens_inside(prefix, a, b);
            },
        }
        assert forall|k: int| #![trigger events[k]] 0 <= k < events.len() implies (events[k] matches TreeEvent::Token(_, s, e) ==> s <= e <= b) by {
            if k < events.len() - 1 {
                assert(events[k] == prefix[k]);
            }
        }
    }
}

/// The tokens' text, concatenated in order.
pub open spec fn tokens_text(src: Seq<char>, events: Seq<TreeEvent>) -> Seq<char>
    decreases events.len(),
{
    if events.len() == 0 {
        Seq::empty()
    } else {
        match events.last() {
            TreeEvent::Token(_, s, e) => tokens_text(src, events.drop_last()) + src.subrange(
                s as int,
                e as int,
            ),
            _ => tokens_text(src, events.drop_last()),
        }
    }
}

/// Tokens that tile `a..b` spell exactly that part of the source.
pub proof fn lemma_tiles_text(src: Seq<char>, events: Seq<TreeEvent>, a: int, b: int)
    requires
        tiles(events, a, b),
        0 <= a,
        b <= src.len(),
    ensures
        tokens_text(src, events) == src.subrange(a, b),
    decreases events.len(),
{
    crate::syntax::lemma_tiles_end(events, a, b);
    if events.len() == 0 {
        assert(src.subrange(a, b) =~= Seq::empty());
    } else {
        match events.last() {
            TreeEvent::Token(_, s, e) => {
                crate::syntax::lemma_tiles_end(events.drop_last(), a, s as int);
                lemma_tiles_text(src, events.drop_last(), a, s as int);
                assert(src.subrange(a, s as int) + src.subrange(s as int, b) =~= src.subrange(a, b));
            },
            _ => {
                lemma_tiles_text(src, events.drop_last(), a, b);
            },
        }
    }
}

/// The positions reached by a tiling's prefixes stay inside its range.
pub proof fn lemma_tile_end_prefix(events: Seq<TreeEvent>, a: int, b: int, k: int)
    requires
        tiles(events, a, b),
        0 <= k <= events.len(),
    ensures
        a <= tile_end(events.take(k), a) <= b,
    decreases events.len(),
{
    crate::syntax::lemma_tiles_end(events, a, b);
    if k == events.len() {
        assert(events.take(k) =~= events);
    } else {
        assert(events.drop_last().take(k) =~= events.take(k));
        match events.last() {
            TreeEvent::Token(_, s, e) => {
                lemma_tile_end_prefix(events.drop_last(), a, s as int, k);
            },
            _ => {
                lemma_tile_end_prefix(events.drop_last(), a, b, k);
            },
        }
    }
}

/// Builds the tree of a parse whose tokens cover `source`.
pub fn build_tree(source: Vec<char>, offsets: Vec<usize>, events: Vec<TreeEvent>) -> (r: SyntaxTree)
    requires
        offsets_of(source@, offsets@),
        tiles(events@, 0, source@.len() as int),
    ensures
        r.wf(),
        r.source@ == source@,
        r.events@ == events@,
{
    let mut positions: Vec<usize> = Vec::new();
    let mut position: usize = 0;
    let mut k: usize = 0;
    assert(events@.take(0) =~= Seq::<TreeEvent>::empty());
    positions.push(0);
    while k < events.len()
        invariant
            k <= events@.len(),
            tiles(events@, 0, source@.len() as int),
            positions@.len() == k + 1,
            position == tile_end(events@.take(k as int), 0),
            forall|t: int|
                0 <= t <= k ==> #[trigger] positions@[t] == tile_end(events@.take(t), 0),
            forall|t: int| 0 <= t <= k ==> #[trigger] positions@[t] <= source@.len(),
        decreases events@.len() - k,
    {
        assert(events@.take(k + 1).drop_last() =~= events@.take(k as int));
        match events[k] {
            TreeEvent::Token(_, _, e) => {
                position = e;
            },
            _ => {},
        }
        k = k + 1;
        proof {
            lemma_tile_end_prefix(events@, 0, source@.len() as int, k as int);
        }
        positions.push(position);
    }
    proof {
        lemma_tiles_tokens_inside(events@, 0, source@.len() as int);
    }
    SyntaxTree { source, offsets, events, positions }
}

/// Net nesting change of one event.
pub open spec fn delta(e: TreeEvent) -> int {
    match e {
        TreeEvent::Start(_) => 1,
        TreeEvent::Finish => -1,
        TreeEvent::Token(_, _, _) => 0,
    }
}

/// Nesting depth of the events strictly between `i` and `j`.
pub open spec fn rel_depth(events: Seq<TreeEvent>, i: int, j: int) -> int
    decreases j - i,
{
    if j <= i + 1 {
        0
    } else {
        rel_depth(events, i, j - 1) + delta(events[j - 1])
    }
}

/// TreeEvent `j` lies inside the node opened at `i`.
pub open spec fn within(events: Seq<TreeEvent>, i: int, j: int) -> bool {
    &&& i < j < events.len()
    &&& forall|k: int| i < k <= j ==> rel_depth(events, i, k) >= 0
}

pub open spec fn start_kind(e: TreeEvent) -> SyntaxKind {
    match e {
        TreeEvent::Start(k) => k,
        _ => SyntaxKind::Error,
    }
}

/// Node `j` is a child (or, with `deep`, a descendant) of node `i` and
/// has one of `kinds`.
pub open spec fn selected(events: Seq<TreeEvent>, i: int, j: int, kinds: Seq<SyntaxKind>, deep: bool) -> bool {
    &&& within(events, i, j)
    &&& events[j] is Start
    &&& (deep || rel_depth(events, i, j) == 0)
    &&& kinds.contains(start_kind(events[j]))
}

/// `r` lists, in increasing order, exactly the nodes that `selected`
/// admits.
pub open spec fn lists_selected(
    r: Seq<usize>,
    events: Seq<TreeEvent>,
    i: int,
    kinds: Seq<SyntaxKind>,
    deep: bool,
) -> bool {
    &&& forall|t: int| 0 <= t < r.len() ==> selected(events, i, #[trigger] r[t] as int, kinds, deep)
    &&& forall|t: int, u: int| 0 <= t < u < r.len() ==> r[t] < r[u]
    &&& forall|j: int| selected(events, i, j, kinds, deep) ==> exists|t: int| 0 <= t < r.len() && r[t] == j
}

pub fn kind_in(kind: SyntaxKind, kinds: &[SyntaxKind]) -> (r: bool)
    ensures
        r == kinds@.contains(kind),
{
    let mut t: usize = 0;
    while t < kinds.len()
        invariant
            t <= kinds@.len(),
            forall|u: int| 0 <= u < t ==> kinds@[u] != kind,
        decreases kinds@.len() - t,
    {
        if kinds[t] == kind {
            return true;
        }
        t = t + 1;
    }
    false
}

/// The nodes below node `i` (children only unless `deep`) whose kind is
/// one of `kinds`, in source order.
pub fn select_nodes(events: &[TreeEvent], i: usize, kinds: &[SyntaxKind], deep: bool) -> (r: Vec<usize>)
    requires
        i < events@.len(),
    ensures
        lists_selected(r@, events@, i as int, kinds@, deep),
{
    let len = events.len();
    let mut r: Vec<usize> = Vec::new();
    let mut j = i + 1;
    let mut d: usize = 0;
    while j < len
        invariant
            i < j <= len == events@.len(),
            d == rel_depth(events@, i as int, j as int),
            d <= j,
            forall|k: int| i < k < j ==> rel_depth(events@, i as int, k) >= 0,
            forall|t: int| 0 <= t < r@.len() ==> selected(events@, i as int, #[trigger] r@[t] as int, kinds@, deep),
            forall|t: int| 0 <= t < r@.len() ==> r@[t] < j,
            forall|t: int, u: int| 0 <= t < u < r@.len() ==> r@[t] < r@[u],
            forall|k: int| i < k < j && selected(events@, i as int, k, kinds@, deep) ==> exists|t: int|
                0 <= t < r@.len() && r@[t] == k,
        ensures
            forall|t: int| 0 <= t < r@.len() ==> selected(events@, i as int, #[trigger] r@[t] as int, kinds@, deep),
            forall|t: int, u: int| 0 <= t < u < r@.len() ==> r@[t] < r@[u],
            forall|k: int| selected(events@, i as int, k, kinds@, deep) ==> exists|t: int|
                0 <= t < r@.len() && r@[t] == k,
        decreases len - j,
    {
        assert(rel_depth(events@, i as int, j + 1) == d + delta(events@[j as int]));
        match events[j] {
            TreeEvent::Start(kind) => {
                if (deep || d == 0) && kind_in(kind, kinds) {
                    let ghost old_r = r@;
                    r.push(j);
                    assert forall|k: int| i < k < j + 1 && selected(events@, i as int, k, kinds@, deep) implies exists|t: int|
                        0 <= t < r@.len() && r@[t] == k by {
                        if k < j {
                            let t = choose|t: int| 0 <= t < old_r.len() && old_r[t] == k;
                            assert(r@[t] == k);
                        } else {
                            assert(r@[old_r.len() as int] == k);
                        }
                    }
                }
                d = d + 1;
            },
            TreeEvent::Finish => {
                if d == 0 {
                    assert forall|k: int| selected(events@, i as int, k, kinds@, deep) implies exists|t: int|
                        0 <= t < r@.len() && r@[t] == k by {
                        if k > j {
                            assert(rel_depth(events@, i as int, j + 1) < 0);
                        }
                    }
                    return r;
                }
                d = d - 1;
            },
            TreeEvent::Token(_, _, _) => {},
        }
        j = j + 1;
    }
    r
}

/// Scanning from event `j` at nesting depth `d`: the index of the
/// event that closes the enclosing node, or the number of events.
pub open spec fn end_from(events: Seq<TreeEvent>, j: int, d: int) -> int
    decreases events.len() - j,
{
    if j >= events.len() || j < 0 {
        events.len() as int
    } else {
        match events[j] {
            TreeEvent::Start(_) => end_from(events, j + 1, d + 1),
            TreeEvent::Finish => if d == 0 {
                j
            } else {
                end_from(events, j + 1, d - 1)
            },
            TreeEvent::Token(_, _, _) => end_from(events, j + 1, d),
        }
    }
}

/// The root node closes at the last event: event 0 opens it, the last
/// event closes it, and the events between never close more nodes than
/// they open.
pub open spec fn root_spans_all(events: Seq<TreeEvent>) -> bool {
    &&& events.len() >= 2
    &&& events[0] is Start
    &&& events.last() is Finish
    &&& nest_from(events.subrange(1, events.len() - 1), 0) == Some(0int)
}

/// Reading events from nesting depth 0 never fails on a prefix when it
/// does not fail on the whole.
proof fn lemma_nest_prefix(m: Seq<TreeEvent>, k: int)
    requires
        0 <= k <= m.len(),
        nest_from(m, 0) is Some,
    ensures
        nest_from(m.take(k), 0) is Some,
    decreases m.len(),
{
    if k < m.len() {
        assert(m.drop_last().take(k) =~= m.take(k));
        lemma_nest_prefix(m.drop_last(), k);
    } else {
        assert(m.take(k) =~= m);
    }
}

/// Scanning for the end of the root from inside it follows the nesting
/// depth of the events read so far.
proof fn lemma_end_scan(events: Seq<TreeEvent>, m: Seq<TreeEvent>, k: int)
    requires
        m == events.subrange(1, events.len() - 1),
        events.len() >= 2,
        0 <= k <= m.len(),
        nest_from(m, 0) is Some,
    ensures
        end_from(events, 1 + k, nest_from(m.take(k), 0)->0) == end_from(events, 1 + m.len() as int, nest_from(m, 0)->0),
    decreases m.len() - k,
{
    lemma_nest_prefix(m, k);
    if k < m.len() {
        lemma_nest_prefix(m, k + 1);
        assert(m.take(k + 1).drop_last() =~= m.take(k));
        assert(m.take(k + 1).last() == m[k]);
        assert(events[1 + k] == m[k]);
        lemma_end_scan(events, m, k + 1);
    } else {
        assert(m.take(k) =~= m);
    }
}

/// Where the root spans all events, its node ends at the last event.
pub proof fn lemma_root_end(events: Seq<TreeEvent>)
    requires
        root_spans_all(events),
    ensures
        node_end_spec(events, 0) == events.len() - 1,
{
    let m = events.subrange(1, events.len() - 1);
    assert(m.take(0) =~= Seq::<TreeEvent>::empty());
    lemma_end_scan(events, m, 0);
    assert(events[events.len() - 1] is Finish);
}

pub proof fn lemma_end_from_bounds(events: Seq<TreeEvent>, j: int, d: int)
    requires
        0 <= j,
    ensures
        j <= end_from(events, j, d) <= events.len() || (j > events.len() && end_from(events, j, d) == events.len()),
    decreases events.len() - j,
{
    if j < events.len() {
        match events[j] {
            TreeEvent::Start(_) => lemma_end_from_bounds(events, j + 1, d + 1),
            TreeEvent::Finish => if d != 0 {
                lemma_end_from_bounds(events, j + 1, d - 1)
            },
            TreeEvent::Token(_, _, _) => lemma_end_from_bounds(events, j + 1, d),
        }
    }
}

/// The index of the event that closes the node opened at `i`, or the
/// number of events when it is never closed.
pub open spec fn node_end_spec(events: Seq<TreeEvent>, i: int) -> int {
    end_from(events, i + 1, 0)
}

pub fn node_end(events: &[TreeEvent], i: usize) -> (r: usize)
    requires
        i < events@.len(),
    ensures
        r == node_end_spec(events@, i as int),
        i < r <= events@.len(),
{
    proof {
        lemma_end_from_bounds(events@, i + 1, 0);
    }
    let len = events.len();
    let mut j = i + 1;
    let mut d: usize = 0;
    while j < len
        invariant
            i < j <= len == events@.len(),
            d <= j,
            end_from(events@, j as int, d as int) == node_end_spec(events@, i as int),
        decreases len - j,
    {
        match events[j] {
            TreeEvent::Start(_) => {
                d = d + 1;
            },
            TreeEvent::Finish => {
                if d == 0 {
                    return j;
                }
                d = d - 1;
            },
            TreeEvent::Token(_, _, _) => {},
        }
        j = j + 1;
    }
    len
}

/// Walking back from event `j` with `d` nodes still to close: the
/// event that opens the node enclosing the start.
pub open spec fn parent_from(events: Seq<TreeEvent>, j: int, d: int) -> Option<int>
    decreases j,
{
    if j <= 0 {
        None
    } else {
        match events[j - 1] {
            TreeEvent::Start(_) => if d == 0 {
                Some(j - 1)
            } else {
                parent_from(events, j - 1, d - 1)
            },
            TreeEvent::Finish => parent_from(events, j - 1, d + 1),
            TreeEvent::Token(_, _, _) => parent_from(events, j - 1, d),
        }
    }
}

/// The node that directly encloses the node opened at `i`.
pub open spec fn parent_spec(events: Seq<TreeEvent>, i: int) -> Option<int> {
    parent_from(events, i, 0)
}

/// A sequence of node indices in strictly increasing order.
pub open spec fn increasing(r: Seq<usize>) -> bool {
    forall|t: int, u: int| 0 <= t < u < r.len() ==> r[t] < r[u]
}

/// Two increasing sequences holding the same elements are equal.
pub proof fn lemma_increasing_unique(a: Seq<usize>, b: Seq<usize>)
    requires
        increasing(a),
        increasing(b),
        forall|x: usize| a.contains(x) <==> b.contains(x),
    ensures
        a == b,
    decreases a.len() + b.len(),
{
    if a.len() == 0 {
        if b.len() > 0 {
            assert(b.contains(b[0]));
        }
        assert(a =~= b);
    } else {
        assert(a.contains(a[0]));
        assert(b.len() > 0);
        assert(b.contains(b[0]));
        let ia = choose|t: int| 0 <= t < a.len() && a[t] == b[0];
        let ib = choose|t: int| 0 <= t < b.len() && b[t] == a[0];
        if ia > 0 {
            assert(a[0] < a[ia]);
        }
        if ib > 0 {
            assert(b[0] < b[ib]);
        }
        assert(a[0] == b[0]);
        let a1 = a.drop_first();
        let b1 = b.drop_first();
        assert forall|x: usize| a1.contains(x) <==> b1.contains(x) by {
            if a1.contains(x) {
                let t = choose|t: int| 0 <= t < a1.len() && a1[t] == x;
                assert(a[t + 1] == x);
                assert(a[0] < a[t + 1]);
                assert(b.contains(x));
                let u = choose|u: int| 0 <= u < b.len() && b[u] == x;
                assert(u != 0);
                assert(b1[u - 1] == x);
            }
            if b1.contains(x) {
                let t = choose|t: int| 0 <= t < b1.len() && b1[t] == x;
                assert(b[t + 1] == x);
                assert(b[0] < b[t + 1]);
                assert(a.contains(x));
                let u = choose|u: int| 0 <= u < a.len() && a[u] == x;
                assert(u != 0);
                assert(a1[u - 1] == x);
            }
        }
        lemma_increasing_unique(a1, b1);
        assert(a =~= seq![a[0]] + a1);
        assert(b =~= seq![b[0]] + b1);
    }
}

/// The nodes that `selected` admits, in increasing order.
pub open spec fn selection(events: Seq<TreeEvent>, i: int, kinds: Seq<SyntaxKind>, deep: bool) -> Seq<usize> {
    choose|r: Seq<usize>| lists_selected(r, events, i, kinds, deep)
}

/// A listing of the selected nodes is the selection.
pub proof fn lemma_selection(r: Seq<usize>, events: Seq<TreeEvent>, i: int, kinds: Seq<SyntaxKind>, deep: bool)
    requires
        lists_selected(r, events, i, kinds, deep),
    ensures
        r == selection(events, i, kinds, deep),
{
    let c = selection(events, i, kinds, deep);
    assert(lists_selected(c, events, i, kinds, deep));
    assert forall|x: usize| r.contains(x) <==> c.contains(x) by {
        if r.contains(x) {
            let t = choose|t: int| 0 <= t < r.len() && r[t] == x;
            assert(selected(events, i, r[t] as int, kinds, deep));
            let u = choose|u: int| 0 <= u < c.len() && c[u] == x as int;
            assert(c[u] == x);
        }
        if c.contains(x) {
            let t = choose|t: int| 0 <= t < c.len() && c[t] == x;
            assert(selected(events, i, c[t] as int, kinds, deep));
            let u = choose|u: int| 0 <= u < r.len() && r[u] == x as int;
            assert(r[u] == x);
        }
    }
    lemma_increasing_unique(r, c);
}

/// The UTF-8 byte span of the node opened at `j`.
pub open spec fn node_span(tree: &SyntaxTree, j: int) -> SourceSpan {
    let range = node_range_spec(tree, j);
    SourceSpan {
        start: utf8_prefix(tree.source@, range.0) as usize,
        end: utf8_prefix(tree.source@, range.1) as usize,
    }
}

/// The extent, in source characters, of the node opened at `i`.
pub open spec fn node_range_spec(tree: &SyntaxTree, i: int) -> (int, int) {
    let end = node_end_spec(tree.events@, i);
    let start = tree.positions@[i] as int;
    let stop = if end < tree.events@.len() {
        tree.positions@[end + 1] as int
    } else {
        tree.positions@[end] as int
    };
    (start, if stop < start {
        start
    } else {
        stop
    })
}

pub open spec fn indices_of<'a>(nodes: Seq<SyntaxNode<'a>>) -> Seq<usize> {
    nodes.map_values(|n: SyntaxNode<'a>| n.index)
}

/// A node of a syntax tree: the index of the event that opens it.
#[derive(Debug, Clone, Copy)]
pub struct SyntaxNode<'a> {
    pub tree: &'a SyntaxTree,
    pub index: usize,
}

impl<'a> SyntaxNode<'a> {
    pub open spec fn valid(&self) -> bool {
        &&& self.tree.wf()
        &&& self.index < self.tree.events@.len()
    }

    pub fn kind(&self) -> (r: SyntaxKind)
        requires
            self.valid(),
        ensures
            r == start_kind(self.tree.events@[self.index as int]),
    {
        match self.tree.events[self.index] {
            TreeEvent::Start(kind) => kind,
            _ => SyntaxKind::Error,
        }
    }

    /// The node's extent in source characters.
    pub fn char_range(&self) -> (r: (usize, usize))
        requires
            self.valid(),
        ensures
            r.0 == node_range_spec(self.tree, self.index as int).0,
            r.1 == node_range_spec(self.tree, self.index as int).1,
            r.0 <= r.1 <= self.tree.source@.len(),
    {
        let end = node_end(self.tree.events.as_slice(), self.index);
        let start = self.tree.positions[self.index];
        let mut stop = self.tree.positions[end];
        proof {
            crate::syntax::lemma_tiles_end(self.tree.events@, 0, self.tree.source@.len() as int);
            lemma_tile_end_prefix(self.tree.events@, 0, self.tree.source@.len() as int, self.index as int);
        }
        if end < self.tree.events.len() {
            stop = self.tree.positions[end + 1];
        }
        if stop < start {
            stop = start;
        }
        (start, stop)
    }

    /// The node's source text.
    pub fn text(&self) -> (r: String)
        requires
            self.valid(),
        ensures
            ({
                let range = node_range_spec(self.tree, self.index as int);
                r@ == self.tree.source@.subrange(range.0, range.1)
            }),
    {
        let (start, end) = self.char_range();
        string_of_range(self.tree.source.as_slice(), start, end)
    }

    /// The node's extent as UTF-8 byte offsets into the source.
    pub fn source_span(&self) -> (r: SourceSpan)
        requires
            self.valid(),
        ensures
            r == node_span(self.tree, self.index as int),
            r.start <= r.end <= utf8_len(self.tree.source@),
            r.start == utf8_prefix(self.tree.source@, node_range_spec(self.tree, self.index as int).0),
            r.end == utf8_prefix(self.tree.source@, node_range_spec(self.tree, self.index as int).1),
    {
        let (start, end) = self.char_range();
        proof {
            lemma_utf8_prefix_mono(self.tree.source@, start as int, end as int);
            lemma_utf8_prefix_mono(self.tree.source@, end as int, self.tree.source@.len() as int);
        }
        SourceSpan { start: self.tree.offsets[start], end: self.tree.offsets[end] }
    }

    /// The child nodes whose kind is one of `kinds`.
    pub fn children_of(&self, kinds: &[SyntaxKind]) -> (r: Vec<SyntaxNode<'a>>)
        requires
            self.valid(),
        ensures
            lists_selected(indices_of(r@), self.tree.events@, self.index as int, kinds@, false),
            indices_of(r@) == selection(self.tree.events@, self.index as int, kinds@, false),
            forall|t: int| 0 <= t < r@.len() ==> (#[trigger] r@[t]).tree == self.tree && r@[t].valid(),
    {
        self.select(kinds, false)
    }

    /// The descendant nodes (not the node itself) whose kind is one of
    /// `kinds`, in source order.
    pub fn descendants_of(&self, kinds: &[SyntaxKind]) -> (r: Vec<SyntaxNode<'a>>)
        requires
            self.valid(),
        ensures
            lists_selected(indices_of(r@), self.tree.events@, self.index as int, kinds@, true),
            indices_of(r@) == selection(self.tree.events@, self.index as int, kinds@, true),
            forall|t: int| 0 <= t < r@.len() ==> (#[trigger] r@[t]).tree == self.tree && r@[t].valid(),
    {
        self.select(kinds, true)
    }

    fn select(&self, kinds: &[SyntaxKind], deep: bool) -> (r: Vec<SyntaxNode<'a>>)
        requires
            self.valid(),
        ensures
            lists_selected(indices_of(r@), self.tree.events@, self.index as int, kinds@, deep),
            indices_of(r@) == selection(self.tree.events@, self.index as int, kinds@, deep),
            forall|t: int| 0 <= t < r@.len() ==> (#[trigger] r@[t]).tree == self.tree && r@[t].valid(),
    {
        let indices = select_nodes(self.tree.events.as_slice(), self.index, kinds, deep);
        let mut r: Vec<SyntaxNode<'a>> = Vec::new();
        let mut t: usize = 0;
        while t < indices.len()
            invariant
                t <= indices@.len(),
                r@.len() == t,
                self.valid(),
                lists_selected(indices@, self.tree.events@, self.index as int, kinds@, deep),
                forall|u: int| 0 <= u < t ==> (#[trigger] r@[u]).tree == self.tree && r@[u].valid()
                    && r@[u].index == indices@[u],
            decreases indices@.len() - t,
        {
            assert(selected(self.tree.events@, self.index as int, indices@[t as int] as int, kinds@, deep));
            r.push(SyntaxNode { tree: self.tree, index: indices[t] });
            t = t + 1;
        }
        assert(indices_of(r@) =~= indices@);
        proof {
            lemma_selection(indices@, self.tree.events@, self.index as int, kinds@, deep);
        }
        r
    }
}

/// The direct children met from event `j` on, at nesting depth `d`
/// below the node being listed, until that node closes.
pub open spec fn children_from(events: Seq<TreeEvent>, j: int, d: int) -> Seq<Element>
    decreases events.len() - j,
{
    if j < 0 || j >= events.len() {
        Seq::empty()
    } else {
        match events[j] {
            TreeEvent::Start(_) => if d == 0 {
                seq![Element::Node(j as usize)] + children_from(events, j + 1, d + 1)
            } else {
                children_from(events, j + 1, d + 1)
            },
            TreeEvent::Finish => if d == 0 {
                Seq::empty()
            } else {
                children_from(events, j + 1, d - 1)
            },
            TreeEvent::Token(kind, s, e) => if d == 0 {
                seq![Element::Token(kind, s, e)] + children_from(events, j + 1, d)
            } else {
                children_from(events, j + 1, d)
            },
        }
    }
}

/// The direct children of the node opened at `i`, nodes and tokens, in
/// source order.
pub open spec fn children_spec(events: Seq<TreeEvent>, i: int) -> Seq<Element> {
    children_from(events, i + 1, 0)
}

/// The tokens among events `a..b`, in order.
pub open spec fn tokens_in(events: Seq<TreeEvent>, a: int, b: int) -> Seq<Element>
    decreases b - a,
{
    if b <= a {
        Seq::empty()
    } else {
        tokens_in(events, a, b - 1) + match events[b - 1] {
            TreeEvent::Token(kind, s, e) => seq![Element::Token(kind, s, e)],
            _ => Seq::empty(),
        }
    }
}

/// The source text of a child element.
pub open spec fn element_text(tree: &SyntaxTree, element: Element) -> Seq<char> {
    match element {
        Element::Node(j) => {
            let range = node_range_spec(tree, j as int);
            tree.source@.subrange(range.0, range.1)
        },
        Element::Token(_, s, e) => tree.source@.subrange(s as int, e as int),
    }
}

/// A direct child of a node: a child node or a token.
#[derive(Debug, Clone, Copy, PartialEq, Eq, Structural)]
pub enum Element {
    Node(usize),
    Token(SyntaxKind, usize, usize),
}

impl<'a> SyntaxNode<'a> {
    /// The node's direct children, nodes and tokens, in order.
    pub fn children_with_tokens(&self) -> (r: Vec<Element>)
        requires
            self.valid(),
        ensures
            r@ == children_spec(self.tree.events@, self.index as int),
            forall|t: int|
                #![trigger r@[t]]
                0 <= t < r@.len() ==> match r@[t] {
                    Element::Node(j) => within(self.tree.events@, self.index as int, j as int)
                        && self.tree.events@[j as int] is Start && rel_depth(
                        self.tree.events@,
                        self.index as int,
                        j as int,
                    ) == 0,
                    Element::Token(k, s, e) => s <= e <= self.tree.source@.len(),
                },
    {
        let events = &self.tree.events;
        let len = events.len();
        let i = self.index;
        let mut r: Vec<Element> = Vec::new();
        let mut j = i + 1;
        let mut d: usize = 0;
        while j < len
            invariant
                self.valid(),
                events == &self.tree.events,
                i == self.index,
                i < j <= len == events@.len(),
                d == rel_depth(events@, i as int, j as int),
                d <= j,
                r@ + children_from(events@, j as int, d as int) == children_spec(events@, i as int),
                forall|k: int| i < k < j ==> rel_depth(events@, i as int, k) >= 0,
                forall|t: int|
                    #![trigger r@[t]]
                    0 <= t < r@.len() ==> match r@[t] {
                        Element::Node(jj) => within(events@, i as int, jj as int)
                            && events@[jj as int] is Start && rel_depth(events@, i as int, jj as int)
                            == 0,
                        Element::Token(k, s, e) => s <= e <= self.tree.source@.len(),
                    },
            decreases len - j,
        {
            assert(rel_depth(events@, i as int, j + 1) == d + delta(events@[j as int]));
            let ghost before = r@;
            match events[j] {
                TreeEvent::Start(_) => {
                    if d == 0 {
                        r.push(Element::Node(j));
                        assert(before + (seq![Element::Node(j)] + children_from(events@, j + 1, 1)) =~= r@
                            + children_from(events@, j + 1, 1));
                    }
                    d = d + 1;
                },
                TreeEvent::Finish => {
                    if d == 0 {
                        assert(r@ =~= r@ + children_from(events@, j as int, 0));
                        return r;
                    }
                    d = d - 1;
                },
                TreeEvent::Token(kind, s, e) => {
                    if d == 0 {
                        r.push(Element::Token(kind, s, e));
                        assert(before + (seq![Element::Token(kind, s, e)] + children_from(events@, j + 1, 0))
                            =~= r@ + children_from(events@, j + 1, 0));
                    }
                },
            }
            j = j + 1;
        }
        assert(r@ =~= r@ + children_from(events@, j as int, d as int));
        r
    }

    /// Every token inside the node, at any depth, in order.
    pub fn descendant_tokens(&self) -> (r: Vec<Element>)
        requires
            self.valid(),
        ensures
            r@ == tokens_in(
                self.tree.events@,
                self.index + 1,
                node_end_spec(self.tree.events@, self.index as int),
            ),
            forall|t: int|
                #![trigger r@[t]]
                0 <= t < r@.len() ==> (r@[t] matches Element::Token(k, s, e) && s <= e
                    <= self.tree.source@.len()),
    {
        let events = &self.tree.events;
        let end = node_end(events.as_slice(), self.index);
        let mut r: Vec<Element> = Vec::new();
        let mut j = self.index + 1;
        while j < end
            invariant
                self.valid(),
                events == &self.tree.events,
                j <= end <= events@.len(),
                self.index + 1 <= j,
                end == node_end_spec(events@, self.index as int),
                r@ == tokens_in(events@, self.index + 1, j as int),
                forall|t: int|
                    #![trigger r@[t]]
                    0 <= t < r@.len() ==> (r@[t] matches Element::Token(k, s, e) && s <= e
                        <= self.tree.source@.len()),
            decreases end - j,
        {
            match events[j] {
                TreeEvent::Token(kind, s, e) => {
                    r.push(Element::Token(kind, s, e));
                },
                _ => {},
            }
            j = j + 1;
        }
        r
    }

    /// The node that directly encloses this one.
    pub fn parent(&self) -> (r: Option<SyntaxNode<'a>>)
        requires
            self.valid(),
        ensures
            r matches Some(p) ==> p.tree == self.tree && p.valid() && p.index < self.index,
            match parent_spec(self.tree.events@, self.index as int) {
                Some(j) => r matches Some(p) && p.index == j,
                None => r is None,
            },
    {
        let events = &self.tree.events;
        let mut j = self.index;
        let mut d: usize = 0;
        while j > 0
            invariant
                self.valid(),
                events == &self.tree.events,
                j <= self.index,
                d <= self.index - j,
                parent_from(events@, j as int, d as int) == parent_spec(events@, self.index as int),
            decreases j,
        {
            j = j - 1;
            match events[j] {
                TreeEvent::Start(_) => {
                    if d == 0 {
                        return Some(SyntaxNode { tree: self.tree, index: j });
                    }
                    d = d - 1;
                },
                TreeEvent::Finish => {
                    d = d + 1;
                },
                TreeEvent::Token(_, _, _) => {},
            }
        }
        None
    }

    /// The first descendant (or, with `include_self`, the node itself)
    /// whose kind is one of `kinds`.
    pub fn first_of(&self, kinds: &[SyntaxKind], include_self: bool) -> (r: Option<SyntaxNode<'a>>)
        requires
            self.valid(),
        ensures
            r matches Some(n) ==> n.tree == self.tree && n.valid() && kinds@.contains(
                start_kind(self.tree.events@[n.index as int]),
            ),
            match r {
                Some(n) => first_of_spec(
                    self.tree.events@,
                    self.index as int,
                    kinds@,
                    include_self,
                ) == Some(n.index as int),
                None => first_of_spec(self.tree.events@, self.index as int, kinds@, include_self) is None,
            },
    {
        if include_self && kind_in(self.kind(), kinds) {
            proof {
                lemma_first_of_unique(self.tree.events@, self.index as int, kinds@, include_self, self.index as int);
            }
            return Some(*self);
        }
        let found = self.descendants_of(kinds);
        if found.len() > 0 {
            let n = found[0];
            proof {
                let events = self.tree.events@;
                assert(indices_of(found@)[0] == n.index);
                assert(selected(events, self.index as int, n.index as int, kinds@, true));
                assert forall|m: int| selected(events, self.index as int, m, kinds@, true) implies n.index
                    <= m by {
                    let t = choose|t: int| 0 <= t < indices_of(found@).len() && indices_of(found@)[t] == m;
                    if t > 0 {
                        assert(indices_of(found@)[0] < indices_of(found@)[t]);
                    }
                }
                assert(is_first_of(events, self.index as int, kinds@, include_self, n.index as int));
                lemma_first_of_unique(events, self.index as int, kinds@, include_self, n.index as int);
            }
            Some(n)
        } else {
            proof {
                let events = self.tree.events@;
                assert forall|j: int| !is_first_of(events, self.index as int, kinds@, include_self, j) by {
                    if selected(events, self.index as int, j, kinds@, true) {
                        let t = choose|t: int| 0 <= t < indices_of(found@).len() && indices_of(found@)[t] == j;
                    }
                }
            }
            None
        }
    }
}

/// Node `j` is the first node, in pre-order, among the descendants of
/// node `i` (and `i` itself, with `include_self`) whose kind is one of
/// `kinds`.
pub open spec fn is_first_of(events: Seq<TreeEvent>, i: int, kinds: Seq<SyntaxKind>, include_self: bool, j: int) -> bool {
    let self_matches = include_self && kinds.contains(start_kind(events[i]));
    ||| self_matches && j == i
    ||| !self_matches && selected(events, i, j, kinds, true) && forall|m: int|
        selected(events, i, m, kinds, true) ==> j <= m
}

/// The first node that `is_first_of` admits, if any.
pub open spec fn first_of_spec(events: Seq<TreeEvent>, i: int, kinds: Seq<SyntaxKind>, include_self: bool) -> Option<int> {
    if exists|j: int| is_first_of(events, i, kinds, include_self, j) {
        Some(choose|j: int| is_first_of(events, i, kinds, include_self, j))
    } else {
        None
    }
}

pub proof fn lemma_first_of_unique(events: Seq<TreeEvent>, i: int, kinds: Seq<SyntaxKind>, include_self: bool, j: int)
    requires
        is_first_of(events, i, kinds, include_self, j),
    ensures
        first_of_spec(events, i, kinds, include_self) == Some(j),
{
    let c = choose|c: int| is_first_of(events, i, kinds, include_self, c);
    assert(is_first_of(events, i, kinds, include_self, c));
}

/// The text of the source characters `start..end`.
pub fn text_of(tree: &SyntaxTree, start: usize, end: usize) -> (r: String)
    requires
        start <= end <= tree.source@.len(),
    ensures
        r@ == tree.source@.subrange(start as int, end as int),
{
    string_of_range(tree.source.as_slice(), start, end)
}

} // verus!
