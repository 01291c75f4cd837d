use crate::range::Range;
use crate::syntax::{linked_down, linked_up, well_formed, NodeView, SyntaxTree};
use vstd::prelude::*;

verus! {

/// Whether the way down to `r` takes a child that spans `span`: the child
/// must span all of `r`, and a strict descent passes over a child that
/// `r` selects exactly.
pub open spec fn accepts(span: Range, r: Range, strict: bool) -> bool {
    span.covers(r) && !(strict && r.selects_exactly(span))
}

/// The node at which the descent from `node` towards `r` ends, when the
/// children of `node` before slot `k` have been passed over: at each
/// level the first accepted child is taken, and the descent ends at the
/// node that has none.
pub open spec fn descend(t: Seq<NodeView>, node: usize, r: Range, strict: bool, k: int) -> usize
    decreases t.len() - node, t[node as int].children.len() - k,
{
    if !well_formed(t) || node >= t.len() || k < 0 || k >= t[node as int].children.len() {
        node
    } else {
        let c = t[node as int].children[k];
        proof {
            assert(linked_down(t, node as int, k));
        }
        if accepts(t[c as int].range, r, strict) {
            descend(t, c, r, strict, 0)
        } else {
            descend(t, node, r, strict, k + 1)
        }
    }
}

/// The highest node over `node`, or `node` itself, that spans the same
/// bytes: the climb goes on while the parent has the same span and does
/// not come before `floor`. With `floor` at 0, the root, nothing bounds
/// the climb; with `floor` at a node over `node`, it stays in the subtree
/// of `floor`.
pub open spec fn highest_same_span(t: Seq<NodeView>, floor: usize, node: usize) -> usize
    decreases node,
{
    if !well_formed(t) || node >= t.len() {
        node
    } else {
        match t[node as int].parent {
            Some(p) => {
                proof {
                    assert(linked_up(t, node as int));
                }
                if p >= floor && t[p as int].range.same_span(t[node as int].range) {
                    highest_same_span(t, floor, p)
                } else {
                    node
                }
            },
            None => node,
        }
    }
}

/// The deepest node below `node` that spans all of `r`, taken at the
/// highest node of the whole tree that has its span.
pub open spec fn shrink(t: Seq<NodeView>, node: usize, r: Range) -> usize {
    highest_same_span(t, 0, descend(t, node, r, false, 0))
}

/// As `shrink`, by a strict descent.
pub open spec fn shrink_strict(t: Seq<NodeView>, node: usize, r: Range) -> usize {
    highest_same_span(t, 0, descend(t, node, r, true, 0))
}

/// As `shrink`, but the climb to the highest node of the same span stays
/// within the subtree of `node`.
pub open spec fn shrink_within(t: Seq<NodeView>, node: usize, r: Range) -> usize {
    highest_same_span(t, node, descend(t, node, r, false, 0))
}

/// The descent ends at or below its start, at a node of the tree whose
/// span lies within the span of the start; where it has moved at all,
/// the node it ends at was accepted.
pub proof fn lemma_descend_bounds(t: Seq<NodeView>, node: usize, r: Range, strict: bool, k: int)
    requires
        well_formed(t),
        node < t.len(),
    ensures
        node <= descend(t, node, r, strict, k) < t.len(),
        t[node as int].range.covers(t[descend(t, node, r, strict, k) as int].range),
        descend(t, node, r, strict, k) != node ==> accepts(
            t[descend(t, node, r, strict, k) as int].range,
            r,
            strict,
        ),
    decreases t.len() - node, t[node as int].children.len() - k,
{
    if 0 <= k < t[node as int].children.len() {
        let c = t[node as int].children[k];
        assert(linked_down(t, node as int, k));
        assert(linked_up(t, c as int));
        if accepts(t[c as int].range, r, strict) {
            lemma_descend_bounds(t, c, r, strict, 0);
        } else {
            lemma_descend_bounds(t, node, r, strict, k + 1);
        }
    }
}

/// The descent ends at a node none of whose children is accepted: of the
/// start itself, none from slot `k` on.
pub proof fn lemma_descend_ends(t: Seq<NodeView>, node: usize, r: Range, strict: bool, k: int)
    requires
        well_formed(t),
        node < t.len(),
        0 <= k,
    ensures
        forall|j: int|
            (if descend(t, node, r, strict, k) == node {
                k
            } else {
                0
            }) <= j < t[descend(t, node, r, strict, k) as int].children.len() ==> !accepts(
                t[#[trigger] t[descend(t, node, r, strict, k) as int].children[j] as int].range,
                r,
                strict,
            ),
    decreases t.len() - node, t[node as int].children.len() - k,
{
    if k < t[node as int].children.len() {
        let c = t[node as int].children[k];
        assert(linked_down(t, node as int, k));
        if accepts(t[c as int].range, r, strict) {
            lemma_descend_ends(t, c, r, strict, 0);
            lemma_descend_bounds(t, c, r, strict, 0);
        } else {
            lemma_descend_ends(t, node, r, strict, k + 1);
            lemma_descend_bounds(t, node, r, strict, k + 1);
        }
    }
}

/// The climb ends at or over its start and not before `floor`, at a node
/// with the span of the start.
pub proof fn lemma_highest_bounds(t: Seq<NodeView>, floor: usize, node: usize)
    requires
        well_formed(t),
        floor <= node < t.len(),
    ensures
        floor <= highest_same_span(t, floor, node) <= node,
        t[highest_same_span(t, floor, node) as int].range.same_span(t[node as int].range),
    decreases node,
{
    if t[node as int].parent is Some {
        assert(linked_up(t, node as int));
        let p = t[node as int].parent->Some_0;
        if p >= floor && t[p as int].range.same_span(t[node as int].range) {
            lemma_highest_bounds(t, floor, p);
        }
    }
}

/// `shrink_within` ends in the subtree that it started in.
pub proof fn lemma_shrink_within_bounds(t: Seq<NodeView>, node: usize, r: Range)
    requires
        well_formed(t),
        node < t.len(),
    ensures
        node <= shrink_within(t, node, r) < t.len(),
{
    lemma_descend_bounds(t, node, r, false, 0);
    lemma_highest_bounds(t, node, descend(t, node, r, false, 0));
}

/// The part of `r` that lies within `span`: it starts at the later of
/// the two starts and ends at the earlier of the two ends. Where the two
/// do not meet, its start lies behind its end.
pub open spec fn part_in(r: Range, span: Range) -> Range {
    Range {
        start_byte: if r.start_byte >= span.start_byte {
            r.start_byte
        } else {
            span.start_byte
        },
        start_point: if r.start_byte >= span.start_byte {
            r.start_point
        } else {
            span.start_point
        },
        end_byte: if r.end_byte <= span.end_byte {
            r.end_byte
        } else {
            span.end_byte
        },
        end_point: if r.end_byte <= span.end_byte {
            r.end_point
        } else {
            span.end_point
        },
    }
}

/// The nodes into which `r` falls in the subtree of `node`, in document
/// order: the node that `shrink_within` finds, if `r` spans all of it;
/// else what the children of that node give.
pub open spec fn pieces(t: Seq<NodeView>, node: usize, r: Range) -> Seq<usize>
    decreases t.len() - node, 1int, 0int,
{
    if !well_formed(t) || node >= t.len() {
        Seq::empty()
    } else {
        let n = shrink_within(t, node, r);
        proof {
            lemma_shrink_within_bounds(t, node, r);
        }
        if r.covers(t[n as int].range) {
            seq![n]
        } else {
            pieces_below(t, n, r, 0)
        }
    }
}

/// What the children of `n` from slot `k` on give to `r`: each child
/// that meets `r` gives the pieces, in its subtree, of the part of `r`
/// that lies within it; a child that does not meet `r` gives nothing.
pub open spec fn pieces_below(t: Seq<NodeView>, n: usize, r: Range, k: int) -> Seq<usize>
    decreases t.len() - n, 0int, t[n as int].children.len() - k,
{
    if !well_formed(t) || n >= t.len() || k < 0 || k >= t[n as int].children.len() {
        Seq::empty()
    } else {
        let c = t[n as int].children[k];
        proof {
            assert(linked_down(t, n as int, k));
        }
        let part = part_in(r, t[c as int].range);
        let head = if part.ordered() {
            pieces(t, c, part)
        } else {
            Seq::empty()
        };
        head + pieces_below(t, n, r, k + 1)
    }
}

/// The nodes into which `r` falls, sought from `node`, in document
/// order: the node that `shrink` finds, if `r` spans all of it; else
/// what the children of that node give.
pub open spec fn nodes_for(t: Seq<NodeView>, node: usize, r: Range) -> Seq<usize> {
    let n = shrink(t, node, r);
    if r.covers(t[n as int].range) {
        seq![n]
    } else {
        pieces_below(t, n, r, 0)
    }
}

/// The named nodes among the children of `n` from slot `k` on.
pub open spec fn named_children_from(t: Seq<NodeView>, n: int, k: int) -> Seq<usize>
    decreases t[n].children.len() - k,
{
    if k < 0 || k >= t[n].children.len() {
        Seq::empty()
    } else {
        let c = t[n].children[k];
        let head = if t[c as int].named {
            seq![c]
        } else {
            Seq::empty()
        };
        head + named_children_from(t, n, k + 1)
    }
}

/// The named nodes directly below `node`, in document order.
pub fn named_children(tree: &SyntaxTree, node: usize) -> (children: Vec<usize>)
    requires
        tree.wf(),
        node < tree@.len(),
    ensures
        children@ == named_children_from(tree@, node as int, 0),
        forall|i: int| 0 <= i < children@.len() ==> node < #[trigger] children@[i] < tree@.len(),
{
    let mut children: Vec<usize> = Vec::new();
    let count = tree.child_count(node);
    let mut k: usize = 0;
    while k < count
        invariant
            tree.wf(),
            node < tree@.len(),
            count == tree@[node as int].children.len(),
            k <= count,
            named_children_from(tree@, node as int, 0) == children@ + named_children_from(
                tree@,
                node as int,
                k as int,
            ),
            forall|i: int|
                0 <= i < children@.len() ==> node < #[trigger] children@[i] < tree@.len(),
        decreases count - k,
    {
        let child = tree.child(node, k);
        let ghost before = children@;
        if tree.is_named(child) {
            children.push(child);
        }
        proof {
            let rest = named_children_from(tree@, node as int, k + 1);
            let head = if tree@[child as int].named {
                seq![child]
            } else {
                Seq::empty()
            };
            assert(named_children_from(tree@, node as int, k as int) == head + rest);
            assert(children@ + rest =~= before + named_children_from(tree@, node as int, k as int));
        }
        k += 1;
    }
    proof {
        assert(children@ + Seq::<usize>::empty() =~= children@);
    }
    children
}

/// Descends from `start` towards `range`: at each level the first child
/// that spans all of `range` is taken (on a strict descent: and that
/// `range` does not select exactly), until a node has none. So the node
/// found lies within `start`, spans all of `range` unless it is `start`
/// itself, and has no child that could be taken.
pub fn deepest_in_range(
    tree: &SyntaxTree,
    start: usize,
    range: &Range,
    strict: bool,
) -> (node: usize)
    requires
        tree.wf(),
        start < tree@.len(),
    ensures
        node == descend(tree@, start, *range, strict, 0),
        start <= node < tree@.len(),
        tree@[start as int].range.covers(tree@[node as int].range),
        node != start ==> accepts(tree@[node as int].range, *range, strict),
        forall|j: int|
            0 <= j < tree@[node as int].children.len() ==> !accepts(
                tree@[#[trigger] tree@[node as int].children[j] as int].range,
                *range,
                strict,
            ),
{
    proof {
        lemma_descend_bounds(tree@, start, *range, strict, 0);
        lemma_descend_ends(tree@, start, *range, strict, 0);
    }
    let mut node = start;
    let mut k: usize = 0;
    let mut count = tree.child_count(node);
    while k < count
        invariant
            tree.wf(),
            start <= node < tree@.len(),
            count == tree@[node as int].children.len(),
            k <= count,
            descend(tree@, start, *range, strict, 0) == descend(
                tree@,
                node,
                *range,
                strict,
                k as int,
            ),
        decreases tree@.len() - node, count - k,
    {
        let child = tree.child(node, k);
        let span = tree.range(child);
        if span.contains(range) && !(strict && range.is_selection_of(&span)) {
            node = child;
            k = 0;
            count = tree.child_count(node);
        } else {
            k += 1;
        }
    }
    node
}

/// Climbs from `node` while the parent spans the same bytes and does not
/// come before `floor`.
pub fn highest_node_within(tree: &SyntaxTree, floor: usize, current_node: usize) -> (node: usize)
    requires
        tree.wf(),
        floor <= current_node < tree@.len(),
    ensures
        node == highest_same_span(tree@, floor, current_node),
        floor <= node <= current_node,
        tree@[node as int].range.same_span(tree@[current_node as int].range),
{
    let span = tree.range(current_node);
    let mut node = current_node;
    loop
        invariant
            tree.wf(),
            floor <= node <= current_node < tree@.len(),
            span == tree@[current_node as int].range,
            tree@[node as int].range.same_span(span),
            highest_same_span(tree@, floor, current_node) == highest_same_span(tree@, floor, node),
        decreases node,
    {
        match tree.parent(node) {
            Some(parent) => {
                if parent >= floor && tree.range(parent).spans_like(&span) {
                    node = parent;
                } else {
                    return node;
                }
            },
            None => {
                return node;
            },
        }
    }
}

/// The highest node over `current_node`, or `current_node` itself, that
/// spans the same bytes.
pub fn highest_node_of_same_range(tree: &SyntaxTree, current_node: usize) -> (node: usize)
    requires
        tree.wf(),
        current_node < tree@.len(),
    ensures
        node == highest_same_span(tree@, 0, current_node),
        node <= current_node,
        tree@[node as int].range.same_span(tree@[current_node as int].range),
{
    highest_node_within(tree, 0, current_node)
}

/// The deepest node at or below `root_node` that spans all of `range`,
/// taken at the highest node of the tree with the same span. Where no
/// child of `root_node` spans `range`, the descent stays at `root_node`.
pub fn shrink_to_range(tree: &SyntaxTree, root_node: usize, range: &Range) -> (node: usize)
    requires
        tree.wf(),
        root_node < tree@.len(),
    ensures
        node == shrink(tree@, root_node, *range),
        node < tree@.len(),
        tree@[root_node as int].range.covers(*range) ==> tree@[node as int].range.covers(*range),
{
    proof {
        lemma_descend_bounds(tree@, root_node, *range, false, 0);
    }
    let node = deepest_in_range(tree, root_node, range, false);
    highest_node_of_same_range(tree, node)
}

/// As `shrink_to_range`, but the descent passes over every child that
/// `range` selects exactly, so that it ends above a node that the
/// selection already matches.
pub fn shrink_to_range_strict(tree: &SyntaxTree, root_node: usize, range: &Range) -> (node: usize)
    requires
        tree.wf(),
        root_node < tree@.len(),
    ensures
        node == shrink_strict(tree@, root_node, *range),
        node < tree@.len(),
        tree@[root_node as int].range.covers(*range) ==> tree@[node as int].range.covers(*range),
{
    proof {
        lemma_descend_bounds(tree@, root_node, *range, true, 0);
    }
    let node = deepest_in_range(tree, root_node, range, true);
    highest_node_of_same_range(tree, node)
}

/// The nodes into which `range` falls, in document order. The range is
/// first shrunk to a node, from `root_node` on; if the range spans that
/// node, the node is the whole answer. Else the range is cut at the
/// bounds of each child of that node, and each child that meets the range
/// gives the nodes of its part.
pub fn nodes_in_range(tree: &SyntaxTree, root_node: usize, range: &Range) -> (nodes: Vec<usize>)
    requires
        tree.wf(),
        root_node < tree@.len(),
    ensures
        nodes@ == nodes_for(tree@, root_node, *range),
        forall|i: int| 0 <= i < nodes@.len() ==> #[trigger] nodes@[i] < tree@.len(),
        forall|i: int|
            0 <= i < nodes@.len() ==> range.covers(tree@[#[trigger] nodes@[i] as int].range),
        range.covers(tree@[shrink(tree@, root_node, *range) as int].range) ==> nodes@ == seq![
            shrink(tree@, root_node, *range),
        ],
        range.covers(tree@[root_node as int].range) ==> nodes@ == seq![
            highest_same_span(tree@, 0, root_node),
        ],
{
    proof {
        if range.covers(tree@[root_node as int].range) {
            lemma_nodes_of_whole(tree@, root_node, *range);
        }
    }
    let node = shrink_to_range(tree, root_node, range);
    if range.contains(&tree.range(node)) {
        let mut nodes: Vec<usize> = Vec::new();
        nodes.push(node);
        nodes
    } else {
        nodes_below(tree, node, range)
    }
}

/// The nodes into which `range` falls in the subtree of `node`, in
/// document order: as `nodes_in_range`, but the node that the range is
/// shrunk to is sought and taken within the subtree.
pub fn nodes_within(tree: &SyntaxTree, node: usize, range: &Range) -> (nodes: Vec<usize>)
    requires
        tree.wf(),
        node < tree@.len(),
    ensures
        nodes@ == pieces(tree@, node, *range),
        forall|i: int| 0 <= i < nodes@.len() ==> node <= #[trigger] nodes@[i] < tree@.len(),
        forall|i: int|
            0 <= i < nodes@.len() ==> range.covers(tree@[#[trigger] nodes@[i] as int].range),
    decreases tree@.len() - node, 1int,
{
    let deepest = deepest_in_range(tree, node, range, false);
    let found = highest_node_within(tree, node, deepest);
    if range.contains(&tree.range(found)) {
        let mut nodes: Vec<usize> = Vec::new();
        nodes.push(found);
        nodes
    } else {
        nodes_below(tree, found, range)
    }
}

/// What the children of `node` give to `range`, in document order: each
/// child that meets the range gives the nodes, in its subtree, of the
/// part of the range that lies within it.
pub fn nodes_below(tree: &SyntaxTree, node: usize, range: &Range) -> (nodes: Vec<usize>)
    requires
        tree.wf(),
        node < tree@.len(),
    ensures
        nodes@ == pieces_below(tree@, node, *range, 0),
        forall|i: int| 0 <= i < nodes@.len() ==> node < #[trigger] nodes@[i] < tree@.len(),
        forall|i: int|
            0 <= i < nodes@.len() ==> range.covers(tree@[#[trigger] nodes@[i] as int].range),
    decreases tree@.len() - node, 0int,
{
    let mut nodes: Vec<usize> = Vec::new();
    let count = tree.child_count(node);
    let mut k: usize = 0;
    proof {
        assert(Seq::<usize>::empty() + pieces_below(tree@, node, *range, 0) =~= pieces_below(
            tree@,
            node,
            *range,
            0,
        ));
    }
    while k < count
        invariant
            tree.wf(),
            node < tree@.len(),
            count == tree@[node as int].children.len(),
            k <= count,
            pieces_below(tree@, node, *range, 0) == nodes@ + pieces_below(
                tree@,
                node,
                *range,
                k as int,
            ),
            forall|i: int| 0 <= i < nodes@.len() ==> node < #[trigger] nodes@[i] < tree@.len(),
            forall|i: int|
                0 <= i < nodes@.len() ==> range.covers(tree@[#[trigger] nodes@[i] as int].range),
        decreases count - k,
    {
        let child = tree.child(node, k);
        let span = tree.range(child);
        let ghost before = nodes@;
        let ghost rest = pieces_below(tree@, node, *range, k + 1);
        let part = Range {
            start_byte: if range.start_byte >= span.start_byte {
                range.start_byte
            } else {
                span.start_byte
            },
            start_point: if range.start_byte >= span.start_byte {
                range.start_point
            } else {
                span.start_point
            },
            end_byte: if range.end_byte <= span.end_byte {
                range.end_byte
            } else {
                span.end_byte
            },
            end_point: if range.end_byte <= span.end_byte {
                range.end_point
            } else {
                span.end_point
            },
        };
        if part.start_byte > part.end_byte {
            proof {
                assert(before + rest =~= before + (Seq::<usize>::empty() + rest));
            }
        } else if range.contains(&span) {
            // the part is the whole child
            nodes.push(child);
            proof {
                lemma_pieces_of_whole(tree@, child, part);
                assert(before.push(child) + rest =~= before + (seq![child] + rest));
            }
        } else {
            let mut found = nodes_within(tree, child, &part);
            proof {
                assert(before + found@ + rest =~= before + (found@ + rest));
            }
            nodes.append(&mut found);
        }
        k += 1;
    }
    proof {
        assert(nodes@ + Seq::<usize>::empty() =~= nodes@);
    }
    nodes
}

/// Every piece of `r` lies within `r`.
pub proof fn lemma_pieces_within(t: Seq<NodeView>, node: usize, r: Range)
    requires
        well_formed(t),
        node < t.len(),
    ensures
        forall|i: int|
            0 <= i < pieces(t, node, r).len() ==> r.covers(
                t[#[trigger] pieces(t, node, r)[i] as int].range,
            ),
    decreases t.len() - node, 1int, 0int,
{
    let n = shrink_within(t, node, r);
    lemma_shrink_within_bounds(t, node, r);
    if !r.covers(t[n as int].range) {
        lemma_pieces_below_within(t, n, r, 0);
    }
}

/// Every piece that the children of `n` give to `r` lies within `r`.
pub proof fn lemma_pieces_below_within(t: Seq<NodeView>, n: usize, r: Range, k: int)
    requires
        well_formed(t),
        n < t.len(),
    ensures
        forall|i: int|
            0 <= i < pieces_below(t, n, r, k).len() ==> r.covers(
                t[#[trigger] pieces_below(t, n, r, k)[i] as int].range,
            ),
    decreases t.len() - n, 0int, t[n as int].children.len() - k,
{
    if 0 <= k < t[n as int].children.len() {
        let c = t[n as int].children[k];
        assert(linked_down(t, n as int, k));
        let part = part_in(r, t[c as int].range);
        if part.ordered() {
            lemma_pieces_within(t, c, part);
        }
        lemma_pieces_below_within(t, n, r, k + 1);
    }
}

/// A descent towards a range that spans all of its start stays among
/// nodes with the span of the start, so the climb from its end is the
/// climb from its start.
pub proof fn lemma_descend_same_span(
    t: Seq<NodeView>,
    floor: usize,
    node: usize,
    r: Range,
    strict: bool,
    k: int,
)
    requires
        well_formed(t),
        floor <= node < t.len(),
        r.covers(t[node as int].range),
    ensures
        highest_same_span(t, floor, descend(t, node, r, strict, k)) == highest_same_span(
            t,
            floor,
            node,
        ),
    decreases t.len() - node, t[node as int].children.len() - k,
{
    if 0 <= k < t[node as int].children.len() {
        let c = t[node as int].children[k];
        assert(linked_down(t, node as int, k));
        assert(linked_up(t, c as int));
        if accepts(t[c as int].range, r, strict) {
            lemma_descend_same_span(t, floor, c, r, strict, 0);
        } else {
            lemma_descend_same_span(t, floor, node, r, strict, k + 1);
        }
    }
}

/// A second descent, towards the span of the node at which a first
/// descent ended, leads to a node of that same span below the same
/// highest node.
pub proof fn lemma_descend_again(t: Seq<NodeView>, node: usize, r: Range, q: Range, k: int)
    requires
        well_formed(t),
        node < t.len(),
        q.same_span(t[descend(t, node, r, false, k) as int].range),
    ensures
        highest_same_span(t, 0, descend(t, node, q, false, k)) == highest_same_span(
            t,
            0,
            descend(t, node, r, false, k),
        ),
    decreases t.len() - node, t[node as int].children.len() - k,
{
    if 0 <= k < t[node as int].children.len() {
        let c = t[node as int].children[k];
        assert(linked_down(t, node as int, k));
        assert(linked_up(t, c as int));
        if accepts(t[c as int].range, r, false) {
            lemma_descend_bounds(t, c, r, false, 0);
            lemma_descend_again(t, c, r, q, 0);
        } else if accepts(t[c as int].range, q, false) {
            lemma_descend_bounds(t, node, r, false, k + 1);
            lemma_descend_same_span(t, 0, c, q, false, 0);
        } else {
            lemma_descend_again(t, node, r, q, k + 1);
        }
    }
}

/// Shrinking is idempotent on the span of what it finds: shrinking to the
/// range of the node that a first shrinking found gives that node again.
pub proof fn lemma_shrink_idempotent(t: Seq<NodeView>, node: usize, r: Range)
    requires
        well_formed(t),
        node < t.len(),
    ensures
        shrink(t, node, t[shrink(t, node, r) as int].range) == shrink(t, node, r),
{
    let d = descend(t, node, r, false, 0);
    lemma_descend_bounds(t, node, r, false, 0);
    lemma_highest_bounds(t, 0, d);
    lemma_descend_again(t, node, r, t[shrink(t, node, r) as int].range, 0);
}

/// A range that spans all of a node falls into that node alone. So the
/// range of the whole document falls into the root alone.
pub proof fn lemma_pieces_of_whole(t: Seq<NodeView>, node: usize, r: Range)
    requires
        well_formed(t),
        node < t.len(),
        r.covers(t[node as int].range),
    ensures
        pieces(t, node, r) == seq![node],
{
    lemma_descend_same_span(t, node, node, r, false, 0);
    if t[node as int].parent is Some {
        assert(linked_up(t, node as int));
    }
}

/// A range that spans all of a node falls, sought from that node, into
/// the highest node of its span alone. So the range of the whole
/// document, sought from the root, falls into the root alone.
pub proof fn lemma_nodes_of_whole(t: Seq<NodeView>, node: usize, r: Range)
    requires
        well_formed(t),
        node < t.len(),
        r.covers(t[node as int].range),
    ensures
        shrink(t, node, r) == highest_same_span(t, 0, node),
        nodes_for(t, node, r) == seq![highest_same_span(t, 0, node)],
        highest_same_span(t, 0, 0) == 0,
{
    lemma_descend_same_span(t, 0, node, r, false, 0);
    lemma_highest_bounds(t, 0, node);
}

} // verus!
