use crate::range::Range;
use crate::syntax::{
    lemma_within_bounds, lemma_within_child, lemma_within_root, lemma_within_trans, linked_down,
    linked_up, well_formed, within, NodeView,
};
use crate::tree::{
    accepts, descend, highest_same_span, lemma_descend_bounds, lemma_highest_bounds,
    lemma_shrink_within_bounds, nodes_for, part_in, pieces, pieces_below, shrink, shrink_within,
};
use vstd::prelude::*;

verus! {

/// The span of the `j`-th child of node `i`.
pub open spec fn child_span(t: Seq<NodeView>, i: int, j: int) -> Range {
    t[t[i].children[j] as int].range
}

/// The children of every node stand in order and do not overlap: each
/// ends before the next starts, or where it starts.
pub open spec fn siblings_apart(t: Seq<NodeView>) -> bool {
    forall|i: int, j: int, k: int|
        0 <= i < t.len() && 0 <= j < k < t[i].children.len() ==> (#[trigger] child_span(
            t,
            i,
            j,
        )).end_byte <= (#[trigger] child_span(t, i, k)).start_byte
}

/// Node `x` spans at least one byte.
pub open spec fn spans_bytes(t: Seq<NodeView>, x: usize) -> bool {
    t[x as int].range.start_byte < t[x as int].range.end_byte
}

/// A node that spans a byte does not lie within two children of one
/// node, where siblings stand apart; nor does it lie within one and in
/// the span of another.
pub proof fn lemma_one_child(t: Seq<NodeView>, x: usize, n: usize, j: int, k: int)
    requires
        well_formed(t),
        siblings_apart(t),
        x < t.len(),
        n < t.len(),
        spans_bytes(t, x),
        0 <= j < t[n as int].children.len(),
        0 <= k < t[n as int].children.len(),
        t[t[n as int].children[j] as int].range.covers(t[x as int].range),
        t[t[n as int].children[k] as int].range.covers(t[x as int].range),
    ensures
        j == k,
{
    if j < k {
        assert(child_span(t, n as int, j).end_byte <= child_span(t, n as int, k).start_byte);
    } else if k < j {
        assert(child_span(t, n as int, k).end_byte <= child_span(t, n as int, j).start_byte);
    }
}

/// The descent ends within its start.
pub proof fn lemma_descend_within(t: Seq<NodeView>, node: usize, r: Range, strict: bool, k: int)
    requires
        well_formed(t),
        node < t.len(),
    ensures
        within(t, descend(t, node, r, strict, k), node),
    decreases t.len() - node, t[node as int].children.len() - k,
{
    if 0 <= k < t[node as int].children.len() {
        let c = t[node as int].children[k];
        assert(linked_down(t, node as int, k));
        if accepts(t[c as int].range, r, strict) {
            lemma_descend_within(t, c, r, strict, 0);
            lemma_descend_bounds(t, c, r, strict, 0);
            assert(within(t, node, node));
            assert(within(t, c, node));
            lemma_within_trans(t, descend(t, c, r, strict, 0), c, node);
        } else {
            lemma_descend_within(t, node, r, strict, k + 1);
        }
    }
}

/// A node lies within the highest node of its span.
pub proof fn lemma_within_highest(t: Seq<NodeView>, floor: usize, node: usize)
    requires
        well_formed(t),
        node < t.len(),
    ensures
        within(t, node, highest_same_span(t, floor, node)),
    decreases node,
{
    if t[node as int].parent is Some {
        assert(linked_up(t, node as int));
        let p = t[node as int].parent->Some_0;
        if p >= floor && t[p as int].range.same_span(t[node as int].range) {
            lemma_within_highest(t, floor, p);
        }
    }
}

/// The climb from a node passes through every node over it that has its
/// span and does not come before `floor`.
pub proof fn lemma_climb_through(t: Seq<NodeView>, floor: usize, d: usize, x: usize)
    requires
        well_formed(t),
        d < t.len(),
        within(t, d, x),
        t[d as int].range.same_span(t[x as int].range),
        floor <= x,
    ensures
        highest_same_span(t, floor, d) == highest_same_span(t, floor, x),
    decreases d,
{
    if d != x {
        assert(linked_up(t, d as int));
        let p = t[d as int].parent->Some_0;
        lemma_within_bounds(t, p, x);
        lemma_climb_through(t, floor, p, x);
    }
}

/// Where a descent towards a range ends, a node in the range that spans
/// a byte and lies within the start is not lost: it lies within the node
/// found, or over it with the same span.
pub proof fn lemma_descend_keeps(t: Seq<NodeView>, node: usize, r: Range, k: int, x: usize)
    requires
        well_formed(t),
        siblings_apart(t),
        node < t.len(),
        x < t.len(),
        within(t, x, node),
        spans_bytes(t, x),
        r.covers(t[x as int].range),
    ensures
        within(t, x, descend(t, node, r, false, k)) || (within(
            t,
            descend(t, node, r, false, k),
            x,
        ) && t[descend(t, node, r, false, k) as int].range.same_span(t[x as int].range)),
    decreases t.len() - node, t[node as int].children.len() - k,
{
    if 0 <= k < t[node as int].children.len() {
        let c = t[node as int].children[k];
        assert(linked_down(t, node as int, k));
        if t[c as int].range.covers(r) {
            let d = descend(t, c, r, false, 0);
            lemma_descend_bounds(t, c, r, false, 0);
            lemma_descend_within(t, c, r, false, 0);
            if x == node {
                assert(linked_up(t, c as int));
                assert(within(t, c, node));
                lemma_within_trans(t, d, c, node);
            } else {
                let j = lemma_within_child(t, x, node);
                lemma_within_bounds(t, x, t[node as int].children[j]);
                lemma_one_child(t, x, node, j, k);
                lemma_descend_keeps(t, c, r, 0, x);
            }
        } else {
            lemma_descend_keeps(t, node, r, k + 1, x);
        }
    }
}

/// A node in the range that spans a byte and lies within the start of a
/// shrinking lies within the node that the shrinking finds.
pub proof fn lemma_shrink_keeps(t: Seq<NodeView>, floor: usize, node: usize, r: Range, x: usize)
    requires
        well_formed(t),
        siblings_apart(t),
        floor <= node < t.len(),
        x < t.len(),
        within(t, x, node),
        spans_bytes(t, x),
        r.covers(t[x as int].range),
    ensures
        within(t, x, highest_same_span(t, floor, descend(t, node, r, false, 0))),
{
    let d = descend(t, node, r, false, 0);
    lemma_descend_keeps(t, node, r, 0, x);
    lemma_descend_bounds(t, node, r, false, 0);
    lemma_within_highest(t, floor, d);
    if within(t, x, d) {
        lemma_within_trans(t, x, d, highest_same_span(t, floor, d));
    } else {
        lemma_within_bounds(t, x, node);
        lemma_climb_through(t, floor, d, x);
        lemma_within_highest(t, floor, x);
    }
}

/// Whether `x` lies within one of `nodes`.
pub open spec fn held_by(t: Seq<NodeView>, x: usize, nodes: Seq<usize>) -> bool {
    exists|i: int| 0 <= i < nodes.len() && within(t, x, #[trigger] nodes[i])
}

/// What is held by a list is held by that list with more before it or
/// behind it.
pub proof fn lemma_held_by_more(t: Seq<NodeView>, x: usize, a: Seq<usize>, b: Seq<usize>)
    ensures
        held_by(t, x, a) ==> held_by(t, x, a + b),
        held_by(t, x, b) ==> held_by(t, x, a + b),
{
    if held_by(t, x, a) {
        let i = choose|i: int| 0 <= i < a.len() && within(t, x, #[trigger] a[i]);
        assert((a + b)[i] == a[i]);
    }
    if held_by(t, x, b) {
        let i = choose|i: int| 0 <= i < b.len() && within(t, x, #[trigger] b[i]);
        assert((a + b)[a.len() + i] == b[i]);
    }
}

/// In the subtree of a node, no node in the range is lost: a node that
/// spans a byte and lies in the range lies within one of the pieces.
pub proof fn lemma_pieces_hold(t: Seq<NodeView>, node: usize, r: Range, x: usize)
    requires
        well_formed(t),
        siblings_apart(t),
        node < t.len(),
        x < t.len(),
        within(t, x, node),
        spans_bytes(t, x),
        r.covers(t[x as int].range),
    ensures
        held_by(t, x, pieces(t, node, r)),
    decreases t.len() - node, 1int, 0int,
{
    let n = shrink_within(t, node, r);
    lemma_shrink_within_bounds(t, node, r);
    lemma_shrink_keeps(t, node, node, r, x);
    if r.covers(t[n as int].range) {
        assert(seq![n][0] == n);
    } else {
        let j = lemma_within_child(t, x, n);
        lemma_pieces_below_hold(t, n, r, 0, x, j);
    }
}

/// What the children of a node give holds every node in the range that
/// spans a byte and lies within one of them.
pub proof fn lemma_pieces_below_hold(
    t: Seq<NodeView>,
    n: usize,
    r: Range,
    k: int,
    x: usize,
    j: int,
)
    requires
        well_formed(t),
        siblings_apart(t),
        n < t.len(),
        x < t.len(),
        0 <= k <= j < t[n as int].children.len(),
        within(t, x, t[n as int].children[j]),
        spans_bytes(t, x),
        r.covers(t[x as int].range),
    ensures
        held_by(t, x, pieces_below(t, n, r, k)),
    decreases t.len() - n, 0int, t[n as int].children.len() - k,
{
    let c = t[n as int].children[k];
    assert(linked_down(t, n as int, k));
    let part = part_in(r, t[c as int].range);
    let head = if part.ordered() {
        pieces(t, c, part)
    } else {
        Seq::empty()
    };
    let rest = pieces_below(t, n, r, k + 1);
    if k == j {
        lemma_within_bounds(t, x, c);
        lemma_pieces_hold(t, c, part, x);
    } else {
        lemma_pieces_below_hold(t, n, r, k + 1, x, j);
    }
    lemma_held_by_more(t, x, head, rest);
}

/// No node in the range is lost: where siblings stand in order and do not
/// overlap, every node that spans a byte, lies in the range and lies
/// within the node that the search starts from lies within one of the
/// nodes that the range falls into. Sought from the root, that is so of
/// every node in the range that spans a byte.
pub proof fn lemma_nodes_hold(t: Seq<NodeView>, node: usize, r: Range, x: usize)
    requires
        well_formed(t),
        siblings_apart(t),
        node < t.len(),
        x < t.len(),
        within(t, x, node),
        spans_bytes(t, x),
        r.covers(t[x as int].range),
    ensures
        held_by(t, x, nodes_for(t, node, r)),
        within(t, x, 0),
{
    let n = shrink(t, node, r);
    let d = descend(t, node, r, false, 0);
    lemma_descend_bounds(t, node, r, false, 0);
    lemma_highest_bounds(t, 0, d);
    lemma_shrink_keeps(t, 0, node, r, x);
    lemma_within_root(t, x);
    if r.covers(t[n as int].range) {
        assert(seq![n][0] == n);
    } else {
        let j = lemma_within_child(t, x, n);
        lemma_pieces_below_hold(t, n, r, 0, x, j);
    }
}

} // verus!
