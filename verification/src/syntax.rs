use crate::range::Range;
use vstd::prelude::*;

verus! {

/// What a syntax tree holds of one node.
pub struct NodeView {
    /// The name of the grammar production.
    pub kind: Seq<char>,
    /// Whether the node stands for a named rule of the grammar, not for
    /// punctuation or a keyword.
    pub named: bool,
    /// The text that the node spans.
    pub range: Range,
    /// The node above, or `None` for the root.
    pub parent: Option<usize>,
    /// The position of the node among the children of its parent.
    pub slot: usize,
    /// The nodes below, in document order.
    pub children: Seq<usize>,
}

/// Node `i` hangs below an earlier node that lists it at its slot and
/// spans at least its bytes.
pub open spec fn linked_up(t: Seq<NodeView>, i: int) -> bool {
    match t[i].parent {
        Some(p) => {
            &&& p < i
            &&& t[i].slot < t[p as int].children.len()
            &&& t[p as int].children[t[i].slot as int] == i
            &&& t[p as int].range.covers(t[i].range)
        },
        None => false,
    }
}

/// The `k`-th child of node `i` is a later node that names `i` as its
/// parent and `k` as its slot.
pub open spec fn linked_down(t: Seq<NodeView>, i: int, k: int) -> bool {
    let c = t[i].children[k];
    &&& i < c < t.len()
    &&& t[c as int].parent == Some(i as usize)
    &&& t[c as int].slot == k
}

/// The nodes form a tree rooted at node 0 in which every node comes
/// after its parent and spans no byte outside its parent's span.
pub open spec fn well_formed(t: Seq<NodeView>) -> bool {
    &&& t.len() > 0
    &&& t[0].parent is None
    &&& forall|i: int| 1 <= i < t.len() ==> #[trigger] linked_up(t, i)
    &&& forall|i: int, k: int|
        0 <= i < t.len() && 0 <= k < t[i].children.len() ==> #[trigger] linked_down(t, i, k)
}

/// The index of the node above node `i`, or -1 for a node without one.
pub open spec fn above(t: Seq<NodeView>, i: int) -> int {
    match t[i].parent {
        Some(p) => p as int,
        None => -1,
    }
}

/// The nodes stand level by level: a later node hangs below the same
/// node as an earlier one, or below a later one.
pub open spec fn in_level_order(t: Seq<NodeView>) -> bool {
    forall|a: int, b: int|
        #![trigger above(t, a), above(t, b)]
        0 <= a <= b < t.len() ==> above(t, a) <= above(t, b)
}

/// Node `x` is node `n` or lies below it.
pub open spec fn within(t: Seq<NodeView>, x: usize, n: usize) -> bool
    decreases x,
{
    if x == n {
        true
    } else if !well_formed(t) || x >= t.len() {
        false
    } else {
        match t[x as int].parent {
            Some(above) => {
                proof {
                    assert(linked_up(t, x as int));
                }
                within(t, above, n)
            },
            None => false,
        }
    }
}

/// A node within another comes at or behind it and spans no byte outside
/// it.
pub proof fn lemma_within_bounds(t: Seq<NodeView>, x: usize, n: usize)
    requires
        well_formed(t),
        x < t.len(),
        within(t, x, n),
    ensures
        n <= x,
        t[n as int].range.covers(t[x as int].range),
    decreases x,
{
    if x != n {
        assert(linked_up(t, x as int));
        lemma_within_bounds(t, t[x as int].parent->Some_0, n);
    }
}

/// What lies within a node lies within every node that this node lies
/// within.
pub proof fn lemma_within_trans(t: Seq<NodeView>, x: usize, m: usize, n: usize)
    requires
        well_formed(t),
        x < t.len(),
        within(t, x, m),
        within(t, m, n),
    ensures
        within(t, x, n),
    decreases x,
{
    if x != m && x != n {
        assert(linked_up(t, x as int));
        lemma_within_trans(t, t[x as int].parent->Some_0, m, n);
    }
}

/// A node within another, and not that one, lies within one of its
/// children.
pub proof fn lemma_within_child(t: Seq<NodeView>, x: usize, n: usize) -> (j: int)
    requires
        well_formed(t),
        x < t.len(),
        within(t, x, n),
        x != n,
    ensures
        n < t.len(),
        0 <= j < t[n as int].children.len(),
        within(t, x, t[n as int].children[j]),
    decreases x,
{
    assert(linked_up(t, x as int));
    let above = t[x as int].parent->Some_0;
    if above == n {
        t[x as int].slot as int
    } else {
        let j = lemma_within_child(t, above, n);
        assert(within(t, x, t[n as int].children[j]));
        j
    }
}

/// Every node lies within the root.
pub proof fn lemma_within_root(t: Seq<NodeView>, x: usize)
    requires
        well_formed(t),
        x < t.len(),
    ensures
        within(t, x, 0),
    decreases x,
{
    if x != 0 {
        assert(linked_up(t, x as int));
        lemma_within_root(t, t[x as int].parent->Some_0);
    }
}

/// Of two nodes that a node lies within, one lies within the other.
pub proof fn lemma_within_chain(t: Seq<NodeView>, x: usize, a: usize, b: usize)
    requires
        well_formed(t),
        x < t.len(),
        within(t, x, a),
        within(t, x, b),
    ensures
        within(t, a, b) || within(t, b, a),
    decreases x,
{
    if x != a && x != b {
        assert(linked_up(t, x as int));
        lemma_within_chain(t, t[x as int].parent->Some_0, a, b);
    }
}

/// The tree `t` with one more node, hung below `parent` as its last
/// child.
pub open spec fn with_child(
    t: Seq<NodeView>,
    parent: usize,
    kind: Seq<char>,
    named: bool,
    range: Range,
) -> Seq<NodeView> {
    let above = t[parent as int];
    t.update(
        parent as int,
        NodeView { children: above.children.push(t.len() as usize), ..above },
    ).push(
        NodeView {
            kind,
            named,
            range,
            parent: Some(parent),
            slot: above.children.len() as usize,
            children: Seq::empty(),
        },
    )
}

/// Hanging a node below a node that spans it keeps a tree well formed.
pub proof fn lemma_with_child_wf(
    t: Seq<NodeView>,
    parent: usize,
    kind: Seq<char>,
    named: bool,
    range: Range,
)
    requires
        well_formed(t),
        parent < t.len(),
        t.len() < usize::MAX,
        t[parent as int].children.len() < usize::MAX,
        t[parent as int].range.covers(range),
    ensures
        well_formed(with_child(t, parent, kind, named, range)),
{
    let u = with_child(t, parent, kind, named, range);
    assert forall|i: int| 1 <= i < u.len() implies #[trigger] linked_up(u, i) by {
        if i < t.len() {
            assert(linked_up(t, i));
        }
    }
    assert forall|i: int, k: int|
        0 <= i < u.len() && 0 <= k < u[i].children.len() implies #[trigger] linked_down(
        u,
        i,
        k,
    ) by {
        if i < t.len() && k < t[i].children.len() {
            assert(linked_down(t, i, k));
        }
    }
}

/// The first named node among the children of `p` from slot `k` on.
pub open spec fn named_child_from(t: Seq<NodeView>, p: int, k: int) -> Option<usize>
    decreases t[p].children.len() - k,
{
    if k < 0 || k >= t[p].children.len() {
        None
    } else if t[t[p].children[k] as int].named {
        Some(t[p].children[k])
    } else {
        named_child_from(t, p, k + 1)
    }
}

/// The last named node among the children of `p` before slot `k`.
pub open spec fn named_child_before(t: Seq<NodeView>, p: int, k: int) -> Option<usize>
    decreases k,
{
    if k <= 0 || k > t[p].children.len() {
        None
    } else if t[t[p].children[k - 1] as int].named {
        Some(t[p].children[k - 1])
    } else {
        named_child_before(t, p, k - 1)
    }
}

/// The nearest named node behind `n` below the same parent.
pub open spec fn next_named(t: Seq<NodeView>, n: int) -> Option<usize> {
    match t[n].parent {
        Some(p) => named_child_from(t, p as int, t[n].slot + 1),
        None => None,
    }
}

/// The nearest named node before `n` below the same parent.
pub open spec fn prev_named(t: Seq<NodeView>, n: int) -> Option<usize> {
    match t[n].parent {
        Some(p) => named_child_before(t, p as int, t[n].slot as int),
        None => None,
    }
}

struct SyntaxNode {
    kind: String,
    named: bool,
    range: Range,
    parent: Option<usize>,
    slot: usize,
    children: Vec<usize>,
}

impl View for SyntaxNode {
    type V = NodeView;

    closed spec fn view(&self) -> NodeView {
        NodeView {
            kind: self.kind@,
            named: self.named,
            range: self.range,
            parent: self.parent,
            slot: self.slot,
            children: self.children@,
        }
    }
}

/// An immutable syntax tree, held as a sequence of nodes. A node is
/// named by its index; the root is node 0.
pub struct SyntaxTree {
    nodes: Vec<SyntaxNode>,
}

impl View for SyntaxTree {
    type V = Seq<NodeView>;

    closed spec fn view(&self) -> Seq<NodeView> {
        self.nodes@.map_values(|n: SyntaxNode| n@)
    }
}

impl SyntaxTree {
    /// The invariant of the type.
    pub open spec fn wf(&self) -> bool {
        well_formed(self@)
    }

    /// A tree of one node, the root.
    pub fn new(kind: &str, named: bool, range: Range) -> (tree: SyntaxTree)
        ensures
            tree.wf(),
            tree@ == seq![
                NodeView {
                    kind: kind@,
                    named,
                    range,
                    parent: None,
                    slot: 0,
                    children: Seq::empty(),
                },
            ],
    {
        let root = SyntaxNode {
            kind: kind.to_owned(),
            named,
            range,
            parent: None,
            slot: 0,
            children: Vec::new(),
        };
        let mut nodes: Vec<SyntaxNode> = Vec::new();
        nodes.push(root);
        let tree = SyntaxTree { nodes };
        assert(tree@ =~= seq![
            NodeView {
                kind: kind@,
                named,
                range,
                parent: None,
                slot: 0,
                children: Seq::empty(),
            },
        ]);
        tree
    }

    /// Hangs a new node below `parent`, behind the children that `parent`
    /// already has, and returns its index. Nothing is added, and `None`
    /// comes back, when `parent` is no node of the tree or `range` has a
    /// byte outside the span of `parent`.
    pub fn add_child(
        &mut self,
        parent: usize,
        kind: &str,
        named: bool,
        range: Range,
    ) -> (id: Option<usize>)
        requires
            old(self).wf(),
        ensures
            final(self).wf(),
            match id {
                Some(c) => {
                    &&& parent < old(self)@.len()
                    &&& old(self)@[parent as int].range.covers(range)
                    &&& c == old(self)@.len()
                    &&& final(self)@ == with_child(old(self)@, parent, kind@, named, range)
                },
                None => {
                    &&& !(parent < old(self)@.len() && old(self)@[parent as int].range.covers(
                        range,
                    ))
                    &&& final(self)@ == old(self)@
                },
            },
    {
        if parent >= self.nodes.len() {
            return None;
        }
        if !self.nodes[parent].range.contains(&range) {
            return None;
        }
        let ghost before = self@;
        let id = self.nodes.len();
        let slot = self.nodes[parent].children.len();
        let node = SyntaxNode {
            kind: kind.to_owned(),
            named,
            range,
            parent: Some(parent),
            slot,
            children: Vec::new(),
        };
        self.nodes[parent].children.push(id);
        self.nodes.push(node);
        let below = self.nodes[parent].children.len();
        let total = self.nodes.len();
        proof {
            assert(below == before[parent as int].children.len() + 1);
            assert(total == before.len() + 1);
            let after = with_child(before, parent, kind@, named, range);
            assert(self@ =~= after);
            lemma_with_child_wf(before, parent, kind@, named, range);
        }
        Some(id)
    }

    /// The number of nodes.
    pub fn len(&self) -> (n: usize)
        ensures
            n == self@.len(),
    {
        self.nodes.len()
    }

    /// The name of the grammar production of node `n`.
    pub fn kind(&self, n: usize) -> (kind: &str)
        requires
            n < self@.len(),
        ensures
            kind@ == self@[n as int].kind,
    {
        self.nodes[n].kind.as_str()
    }

    /// Whether node `n` stands for a named rule of the grammar.
    pub fn is_named(&self, n: usize) -> (named: bool)
        requires
            n < self@.len(),
        ensures
            named == self@[n as int].named,
    {
        self.nodes[n].named
    }

    /// The text that node `n` spans.
    pub fn range(&self, n: usize) -> (range: Range)
        requires
            n < self@.len(),
        ensures
            range == self@[n as int].range,
    {
        self.nodes[n].range
    }

    /// The node above `n`, or `None` for the root.
    pub fn parent(&self, n: usize) -> (parent: Option<usize>)
        requires
            self.wf(),
            n < self@.len(),
        ensures
            parent == self@[n as int].parent,
            parent matches Some(p) ==> p < n,
    {
        proof {
            if n > 0 {
                assert(linked_up(self@, n as int));
            }
        }
        self.nodes[n].parent
    }

    /// The number of nodes directly below `n`, named or not.
    pub fn child_count(&self, n: usize) -> (count: usize)
        requires
            n < self@.len(),
        ensures
            count == self@[n as int].children.len(),
    {
        self.nodes[n].children.len()
    }

    /// The `k`-th node directly below `n`.
    pub fn child(&self, n: usize, k: usize) -> (child: usize)
        requires
            self.wf(),
            n < self@.len(),
            k < self@[n as int].children.len(),
        ensures
            child == self@[n as int].children[k as int],
            n < child < self@.len(),
    {
        proof {
            assert(linked_down(self@, n as int, k as int));
        }
        self.nodes[n].children[k]
    }

    /// The nearest named node behind `n` below the same parent.
    pub fn next_named_sibling(&self, n: usize) -> (sibling: Option<usize>)
        requires
            self.wf(),
            n < self@.len(),
        ensures
            sibling == next_named(self@, n as int),
            sibling matches Some(s) ==> s < self@.len() && s != n && self@[s as int].named
                && self@[s as int].parent == self@[n as int].parent,
    {
        let p = match self.nodes[n].parent {
            Some(p) => p,
            None => { return None; },
        };
        proof {
            assert(linked_up(self@, n as int));
        }
        let count = self.nodes[p].children.len();
        let mut k = self.nodes[n].slot + 1;
        while k < count
            invariant
                self.wf(),
                n < self@.len(),
                p < self@.len(),
                self@[n as int].parent == Some(p),
                count == self@[p as int].children.len(),
                self@[n as int].slot < k <= count,
                next_named(self@, n as int) == named_child_from(self@, p as int, k as int),
            decreases count - k,
        {
            proof {
                assert(linked_down(self@, p as int, k as int));
            }
            let c = self.nodes[p].children[k];
            if self.nodes[c].named {
                return Some(c);
            }
            k += 1;
        }
        None
    }

    /// The nearest named node before `n` below the same parent.
    pub fn prev_named_sibling(&self, n: usize) -> (sibling: Option<usize>)
        requires
            self.wf(),
            n < self@.len(),
        ensures
            sibling == prev_named(self@, n as int),
            sibling matches Some(s) ==> s < self@.len() && s != n && self@[s as int].named
                && self@[s as int].parent == self@[n as int].parent,
    {
        let p = match self.nodes[n].parent {
            Some(p) => p,
            None => { return None; },
        };
        proof {
            assert(linked_up(self@, n as int));
        }
        let mut k = self.nodes[n].slot;
        while k > 0
            invariant
                self.wf(),
                n < self@.len(),
                p < self@.len(),
                self@[n as int].parent == Some(p),
                k <= self@[n as int].slot < self@[p as int].children.len(),
                prev_named(self@, n as int) == named_child_before(self@, p as int, k as int),
            decreases k,
        {
            proof {
                assert(linked_down(self@, p as int, k - 1));
            }
            let c = self.nodes[p].children[k - 1];
            if self.nodes[c].named {
                return Some(c);
            }
            k -= 1;
        }
        None
    }
}

} // verus!
