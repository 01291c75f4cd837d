use crate::config::{resolve, visible, FiletypeConfig, PolicyView};
use crate::range::Range;
use crate::syntax::{
    lemma_within_bounds, lemma_within_chain, lemma_within_trans, linked_down, linked_up,
    named_child_before, named_child_from, next_named, prev_named, well_formed, within, NodeView,
    SyntaxTree,
};
use crate::text::{holds_text, texts};
use crate::tree::{
    named_children, named_children_from, nodes_for, nodes_in_range, shrink, shrink_strict,
    shrink_to_range, shrink_to_range_strict,
};
use vstd::prelude::*;

verus! {

/// Whether node `n` may be selected: it is named, and its kind is shown.
pub open spec fn matters(t: Seq<NodeView>, p: PolicyView, n: int) -> bool {
    t[n].named && visible(p, t[n].kind)
}

/// The first node on the way from `n` up to the root that may be
/// selected, or the root if none may.
pub open spec fn climb_to_visible(t: Seq<NodeView>, p: PolicyView, n: usize) -> usize
    decreases n,
{
    if !well_formed(t) || n >= t.len() || matters(t, p, n as int) {
        n
    } else {
        match t[n as int].parent {
            Some(above) => {
                proof {
                    assert(linked_up(t, n as int));
                }
                climb_to_visible(t, p, above)
            },
            None => n,
        }
    }
}

/// Walks from `current_node` up to the first node that is named and
/// whose kind the policy shows; ends at the root if there is none.
pub fn traverse_up_to_node_which_matters(
    filetype_config: &FiletypeConfig,
    tree: &SyntaxTree,
    current_node: usize,
) -> (node: usize)
    requires
        tree.wf(),
        current_node < tree@.len(),
    ensures
        node == climb_to_visible(tree@, filetype_config@, current_node),
        node <= current_node,
        matters(tree@, filetype_config@, node as int) || tree@[node as int].parent is None,
{
    let mut node = current_node;
    loop
        invariant
            tree.wf(),
            node <= current_node < tree@.len(),
            climb_to_visible(tree@, filetype_config@, current_node) == climb_to_visible(
                tree@,
                filetype_config@,
                node,
            ),
        decreases node,
    {
        if tree.is_named(node) && filetype_config.is_node_visible(tree.kind(node)) {
            return node;
        }
        match tree.parent(node) {
            Some(above) => {
                node = above;
            },
            None => {
                return node;
            },
        }
    }
}

/// Hidden kinds are passed over: the walk up from a node ends at a node
/// over it, or at the node itself, that is named and whose kind is
/// shown, unless it ends at the root. So below the root it ends at no
/// node whose kind a whitelist leaves out, nor, without a whitelist, at
/// one whose kind a blacklist names.
pub proof fn lemma_climb_passes_hidden(t: Seq<NodeView>, p: PolicyView, n: usize)
    requires
        well_formed(t),
        n < t.len(),
    ensures
        within(t, n, climb_to_visible(t, p, n)),
        t[climb_to_visible(t, p, n) as int].parent is Some ==> {
            let found = t[climb_to_visible(t, p, n) as int];
            &&& found.named
            &&& visible(p, found.kind)
            &&& match p.whitelist {
                Some(shown) => shown.contains(found.kind),
                None => match p.blacklist {
                    Some(hidden) => !hidden.contains(found.kind),
                    None => true,
                },
            }
        },
    decreases n,
{
    if !matters(t, p, n as int) && t[n as int].parent is Some {
        assert(linked_up(t, n as int));
        lemma_climb_passes_hidden(t, p, t[n as int].parent->Some_0);
    }
}

/// Whether `kind` passes the filter `kinds`: no filter lets every kind
/// pass, a list lets pass what it holds.
pub open spec fn of_kinds(kind: Seq<char>, kinds: Option<Seq<Seq<char>>>) -> bool {
    match kinds {
        Some(list) => list.contains(kind),
        None => true,
    }
}

/// The texts of an optional list of kinds.
pub open spec fn filter_of(kinds: Option<Vec<String>>) -> Option<Seq<Seq<char>>> {
    match kinds {
        Some(list) => Some(texts(list@)),
        None => None,
    }
}

/// Tells whether the kind of `node` passes the filter `kinds`.
pub fn node_of_kinds(tree: &SyntaxTree, node: usize, kinds: &Option<Vec<String>>) -> (passes: bool)
    requires
        node < tree@.len(),
    ensures
        passes == of_kinds(tree@[node as int].kind, filter_of(*kinds)),
{
    match kinds {
        Some(list) => holds_text(list, tree.kind(node)),
        None => true,
    }
}

/// Whether node `c` is one that a walk may stop at: it may be selected,
/// and its kind passes the filter.
pub open spec fn qualifies(
    t: Seq<NodeView>,
    p: PolicyView,
    kinds: Option<Seq<Seq<char>>>,
    c: int,
) -> bool {
    matters(t, p, c) && of_kinds(t[c].kind, kinds)
}

/// The first node among the children of `above` from slot `k` on that a
/// walk may stop at.
pub open spec fn qualifying_from(
    t: Seq<NodeView>,
    p: PolicyView,
    kinds: Option<Seq<Seq<char>>>,
    above: int,
    k: int,
) -> Option<usize>
    decreases t[above].children.len() - k,
{
    if k < 0 || k >= t[above].children.len() {
        None
    } else if qualifies(t, p, kinds, t[above].children[k] as int) {
        Some(t[above].children[k])
    } else {
        qualifying_from(t, p, kinds, above, k + 1)
    }
}

/// The last node among the children of `above` before slot `k` that a
/// walk may stop at.
pub open spec fn qualifying_before(
    t: Seq<NodeView>,
    p: PolicyView,
    kinds: Option<Seq<Seq<char>>>,
    above: int,
    k: int,
) -> Option<usize>
    decreases k,
{
    if k <= 0 || k > t[above].children.len() {
        None
    } else if qualifies(t, p, kinds, t[above].children[k - 1] as int) {
        Some(t[above].children[k - 1])
    } else {
        qualifying_before(t, p, kinds, above, k - 1)
    }
}

/// Where the walk forward from `n` ends: at the nearest node behind `n`
/// below the same parent that the walk may stop at, or at `n` itself if
/// there is none.
pub open spec fn next_target(
    t: Seq<NodeView>,
    p: PolicyView,
    kinds: Option<Seq<Seq<char>>>,
    n: usize,
) -> usize {
    match t[n as int].parent {
        Some(above) => match qualifying_from(t, p, kinds, above as int, t[n as int].slot + 1) {
            Some(found) => found,
            None => n,
        },
        None => n,
    }
}

/// Where the walk backward from `n` ends: at the nearest node before `n`
/// below the same parent that the walk may stop at, or at `n` itself if
/// there is none.
pub open spec fn prev_target(
    t: Seq<NodeView>,
    p: PolicyView,
    kinds: Option<Seq<Seq<char>>>,
    n: usize,
) -> usize {
    match t[n as int].parent {
        Some(above) => match qualifying_before(
            t,
            p,
            kinds,
            above as int,
            t[n as int].slot as int,
        ) {
            Some(found) => found,
            None => n,
        },
        None => n,
    }
}

/// The next named child from slot `k` on lies at or behind `k`, and no
/// node that a walk may stop at lies between.
pub proof fn lemma_named_child_from(
    t: Seq<NodeView>,
    p: PolicyView,
    kinds: Option<Seq<Seq<char>>>,
    above: int,
    k: int,
)
    requires
        well_formed(t),
        0 <= above < t.len(),
        0 <= k,
    ensures
        match named_child_from(t, above, k) {
            Some(s) => {
                &&& s < t.len()
                &&& t[s as int].parent == Some(above as usize)
                &&& k <= t[s as int].slot < t[above].children.len()
                &&& t[above].children[t[s as int].slot as int] == s
                &&& qualifying_from(t, p, kinds, above, k) == qualifying_from(
                    t,
                    p,
                    kinds,
                    above,
                    t[s as int].slot as int,
                )
            },
            None => qualifying_from(t, p, kinds, above, k) is None,
        },
    decreases t[above].children.len() - k,
{
    if k < t[above].children.len() {
        assert(linked_down(t, above, k));
        if !t[t[above].children[k] as int].named {
            lemma_named_child_from(t, p, kinds, above, k + 1);
        }
    }
}

/// The last named child before slot `k` lies before `k`, and no node
/// that a walk may stop at lies between.
pub proof fn lemma_named_child_before(
    t: Seq<NodeView>,
    p: PolicyView,
    kinds: Option<Seq<Seq<char>>>,
    above: int,
    k: int,
)
    requires
        well_formed(t),
        0 <= above < t.len(),
        k <= t[above].children.len(),
    ensures
        match named_child_before(t, above, k) {
            Some(s) => {
                &&& s < t.len()
                &&& t[s as int].parent == Some(above as usize)
                &&& 0 <= t[s as int].slot < k
                &&& t[above].children[t[s as int].slot as int] == s
                &&& qualifying_before(t, p, kinds, above, k) == qualifying_before(
                    t,
                    p,
                    kinds,
                    above,
                    t[s as int].slot + 1,
                )
            },
            None => qualifying_before(t, p, kinds, above, k) is None,
        },
    decreases k,
{
    if k > 0 {
        assert(linked_down(t, above, k - 1));
        if !t[t[above].children[k - 1] as int].named {
            lemma_named_child_before(t, p, kinds, above, k - 1);
        }
    }
}

/// Walks forward over the named nodes behind `node` below the same
/// parent, to the first whose kind the policy shows and the filter lets
/// pass. Where there is none, the walk ends where it began.
pub fn next_node(
    filetype_config: &FiletypeConfig,
    tree: &SyntaxTree,
    node: usize,
    kinds: &Option<Vec<String>>,
) -> (target: usize)
    requires
        tree.wf(),
        node < tree@.len(),
    ensures
        target == next_target(tree@, filetype_config@, filter_of(*kinds), node),
        target < tree@.len(),
        next_named(tree@, node as int) is None ==> target == node,
{
    let above = match tree.parent(node) {
        Some(above) => above,
        None => {
            return node;
        },
    };
    let ghost t = tree@;
    let ghost p = filetype_config@;
    let ghost filter = filter_of(*kinds);
    proof {
        assert(linked_up(t, node as int));
        lemma_named_child_from(t, p, filter, above as int, t[node as int].slot + 1);
    }
    let mut cursor = node;
    loop
        invariant
            tree.wf(),
            t == tree@,
            p == filetype_config@,
            filter == filter_of(*kinds),
            node < t.len(),
            cursor < t.len(),
            above < t.len(),
            t[node as int].parent == Some(above),
            t[cursor as int].parent == Some(above),
            t[cursor as int].slot < t[above as int].children.len(),
            cursor != node ==> next_named(t, node as int) is Some,
            qualifying_from(t, p, filter, above as int, t[node as int].slot + 1)
                == qualifying_from(t, p, filter, above as int, t[cursor as int].slot + 1),
        decreases t[above as int].children.len() - t[cursor as int].slot,
    {
        proof {
            lemma_named_child_from(t, p, filter, above as int, t[cursor as int].slot + 1);
        }
        match tree.next_named_sibling(cursor) {
            Some(sibling) => {
                if filetype_config.is_node_visible(tree.kind(sibling)) && node_of_kinds(
                    tree,
                    sibling,
                    kinds,
                ) {
                    return sibling;
                }
                cursor = sibling;
            },
            None => {
                return node;
            },
        }
    }
}

/// Walks backward over the named nodes before `node` below the same
/// parent, to the first whose kind the policy shows and the filter lets
/// pass. Where there is none, the walk ends where it began.
pub fn previous_node(
    filetype_config: &FiletypeConfig,
    tree: &SyntaxTree,
    node: usize,
    kinds: &Option<Vec<String>>,
) -> (target: usize)
    requires
        tree.wf(),
        node < tree@.len(),
    ensures
        target == prev_target(tree@, filetype_config@, filter_of(*kinds), node),
        target < tree@.len(),
        prev_named(tree@, node as int) is None ==> target == node,
{
    let above = match tree.parent(node) {
        Some(above) => above,
        None => {
            return node;
        },
    };
    let ghost t = tree@;
    let ghost p = filetype_config@;
    let ghost filter = filter_of(*kinds);
    proof {
        assert(linked_up(t, node as int));
        lemma_named_child_before(t, p, filter, above as int, t[node as int].slot as int);
    }
    let mut cursor = node;
    loop
        invariant
            tree.wf(),
            t == tree@,
            p == filetype_config@,
            filter == filter_of(*kinds),
            node < t.len(),
            cursor < t.len(),
            above < t.len(),
            t[node as int].parent == Some(above),
            t[cursor as int].parent == Some(above),
            t[cursor as int].slot < t[above as int].children.len(),
            cursor != node ==> prev_named(t, node as int) is Some,
            qualifying_before(t, p, filter, above as int, t[node as int].slot as int)
                == qualifying_before(t, p, filter, above as int, t[cursor as int].slot as int),
        decreases t[cursor as int].slot,
    {
        proof {
            lemma_named_child_before(t, p, filter, above as int, t[cursor as int].slot as int);
        }
        match tree.prev_named_sibling(cursor) {
            Some(sibling) => {
                if filetype_config.is_node_visible(tree.kind(sibling)) && node_of_kinds(
                    tree,
                    sibling,
                    kinds,
                ) {
                    return sibling;
                }
                cursor = sibling;
            },
            None => {
                return node;
            },
        }
    }
}

/// The nodes from `n` up to the root, nearest first.
pub open spec fn path_up(t: Seq<NodeView>, n: usize) -> Seq<usize>
    decreases n,
{
    if !well_formed(t) || n >= t.len() {
        Seq::empty()
    } else {
        match t[n as int].parent {
            Some(above) => {
                proof {
                    assert(linked_up(t, n as int));
                }
                seq![n] + path_up(t, above)
            },
            None => seq![n],
        }
    }
}

/// The nearest node of one of `kinds` on the way from `n` up to the
/// root, `n` included.
pub open spec fn nearest_of_kinds(t: Seq<NodeView>, kinds: Seq<Seq<char>>, n: usize) -> Option<
    usize,
>
    decreases n,
{
    if !well_formed(t) || n >= t.len() {
        None
    } else if kinds.contains(t[n as int].kind) {
        Some(n)
    } else {
        match t[n as int].parent {
            Some(above) => {
                proof {
                    assert(linked_up(t, n as int));
                }
                nearest_of_kinds(t, kinds, above)
            },
            None => None,
        }
    }
}

/// The walk to a parent of some kind finds nothing exactly when no node
/// on the way up is of such a kind; what it finds is on the way up, is
/// of such a kind, and no node before it on the way is.
pub proof fn lemma_nearest_of_kinds(t: Seq<NodeView>, kinds: Seq<Seq<char>>, n: usize)
    requires
        well_formed(t),
        n < t.len(),
    ensures
        match nearest_of_kinds(t, kinds, n) {
            Some(found) => exists|i: int|
                {
                    &&& 0 <= i < path_up(t, n).len()
                    &&& #[trigger] path_up(t, n)[i] == found
                    &&& found <= n
                    &&& kinds.contains(t[found as int].kind)
                    &&& forall|j: int|
                        0 <= j < i ==> !kinds.contains(t[#[trigger] path_up(t, n)[j] as int].kind)
                },
            None => forall|j: int|
                0 <= j < path_up(t, n).len() ==> !kinds.contains(
                    t[#[trigger] path_up(t, n)[j] as int].kind,
                ),
        },
    decreases n,
{
    if kinds.contains(t[n as int].kind) {
        assert(path_up(t, n)[0] == n);
    } else {
        match t[n as int].parent {
            Some(above) => {
                assert(linked_up(t, n as int));
                lemma_nearest_of_kinds(t, kinds, above);
                let up = path_up(t, above);
                let whole = path_up(t, n);
                assert(whole == seq![n] + up);
                assert(forall|j: int| 1 <= j < whole.len() ==> whole[j] == up[j - 1]);
                match nearest_of_kinds(t, kinds, above) {
                    Some(found) => {
                        let i = choose|i: int|
                            {
                                &&& 0 <= i < up.len()
                                &&& #[trigger] up[i] == found
                                &&& found <= above
                                &&& kinds.contains(t[found as int].kind)
                                &&& forall|j: int|
                                    0 <= j < i ==> !kinds.contains(t[#[trigger] up[j] as int].kind)
                            };
                        assert(whole[i + 1] == found);
                        assert forall|j: int| 0 <= j < i + 1 implies !kinds.contains(
                            t[#[trigger] whole[j] as int].kind,
                        ) by {
                            if j >= 1 {
                                assert(whole[j] == up[j - 1]);
                            }
                        }
                    },
                    None => {
                        assert forall|j: int| 0 <= j < whole.len() implies !kinds.contains(
                            t[#[trigger] whole[j] as int].kind,
                        ) by {
                            if j >= 1 {
                                assert(whole[j] == up[j - 1]);
                            }
                        }
                    },
                }
            },
            None => {
                assert(path_up(t, n) =~= seq![n]);
            },
        }
    }
}

/// Walks from `node` up to the first node, `node` included, whose kind
/// is one of `kinds`. Where the root is passed without one, there is no
/// such node, and `None` comes back.
pub fn parent_of_kinds(tree: &SyntaxTree, node: usize, kinds: &Vec<String>) -> (found: Option<
    usize,
>)
    requires
        tree.wf(),
        node < tree@.len(),
    ensures
        found == nearest_of_kinds(tree@, texts(kinds@), node),
        found matches Some(a) ==> a <= node && texts(kinds@).contains(tree@[a as int].kind),
        found is None <==> forall|j: int|
            0 <= j < path_up(tree@, node).len() ==> !texts(kinds@).contains(
                tree@[#[trigger] path_up(tree@, node)[j] as int].kind,
            ),
{
    let mut cursor = node;
    loop
        invariant
            tree.wf(),
            cursor <= node < tree@.len(),
            nearest_of_kinds(tree@, texts(kinds@), node) == nearest_of_kinds(
                tree@,
                texts(kinds@),
                cursor,
            ),
        decreases cursor,
    {
        proof {
            lemma_nearest_of_kinds(tree@, texts(kinds@), node);
        }
        if holds_text(kinds, tree.kind(cursor)) {
            return Some(cursor);
        }
        match tree.parent(cursor) {
            Some(above) => {
                cursor = above;
            },
            None => {
                return None;
            },
        }
    }
}

/// The ranges of the nodes of one of `kinds` that are nearest below
/// `n`: `n` itself if it is of such a kind; else what its named children
/// give, each searched in the same way, in document order.
pub open spec fn closest_matches(t: Seq<NodeView>, kinds: Seq<Seq<char>>, n: usize) -> Seq<Range>
    decreases t.len() - n, 1int, 0int,
{
    if !well_formed(t) || n >= t.len() {
        Seq::empty()
    } else if kinds.contains(t[n as int].kind) {
        seq![t[n as int].range]
    } else {
        closest_matches_below(t, kinds, n, 0)
    }
}

/// What the named children of `n` from slot `k` on give to
/// `closest_matches`.
pub open spec fn closest_matches_below(
    t: Seq<NodeView>,
    kinds: Seq<Seq<char>>,
    n: usize,
    k: int,
) -> Seq<Range>
    decreases t.len() - n, 0int, t[n as int].children.len() - k,
{
    if !well_formed(t) || n >= t.len() || k < 0 || k >= t[n as int].children.len() {
        Seq::empty()
    } else {
        let c = t[n as int].children[k];
        proof {
            assert(linked_down(t, n as int, k));
        }
        let head = if t[c as int].named {
            closest_matches(t, kinds, c)
        } else {
            Seq::empty()
        };
        head + closest_matches_below(t, kinds, n, k + 1)
    }
}

/// Adds to `new_ranges` the ranges of the nodes of one of `kinds` that
/// are nearest below `node`: that of `node` itself if it is of such a
/// kind; else those that its named children give, in document order.
pub fn select_nodes(
    tree: &SyntaxTree,
    node: usize,
    kinds: &Vec<String>,
    new_ranges: &mut Vec<Range>,
)
    requires
        tree.wf(),
        node < tree@.len(),
    ensures
        final(new_ranges)@ == old(new_ranges)@ + closest_matches(tree@, texts(kinds@), node),
    decreases tree@.len() - node,
{
    let ghost start = new_ranges@;
    if holds_text(kinds, tree.kind(node)) {
        new_ranges.push(tree.range(node));
        proof {
            assert(new_ranges@ =~= start + seq![tree@[node as int].range]);
        }
        return ;
    }
    let count = tree.child_count(node);
    let mut k: usize = 0;
    proof {
        assert(start + Seq::<Range>::empty() =~= start);
    }
    while k < count
        invariant
            tree.wf(),
            node < tree@.len(),
            count == tree@[node as int].children.len(),
            k <= count,
            start + closest_matches_below(tree@, texts(kinds@), node, 0) == new_ranges@
                + closest_matches_below(tree@, texts(kinds@), node, k as int),
        decreases count - k,
    {
        let child = tree.child(node, k);
        let ghost before = new_ranges@;
        let ghost rest = closest_matches_below(tree@, texts(kinds@), node, k + 1);
        if tree.is_named(child) {
            select_nodes(tree, child, kinds, new_ranges);
            proof {
                let found = closest_matches(tree@, texts(kinds@), child);
                assert(before + found + rest =~= before + (found + rest));
            }
        } else {
            proof {
                assert(before + rest =~= before + (Seq::<Range>::empty() + rest));
            }
        }
        k += 1;
    }
    proof {
        assert(new_ranges@ + Seq::<Range>::empty() =~= new_ranges@);
    }
}

/// Node `m` is a nearest node of one of `kinds` below `n`: it lies
/// within `n`, is of such a kind, and no node over it within `n` is.
pub open spec fn nearest_match(
    t: Seq<NodeView>,
    kinds: Seq<Seq<char>>,
    n: usize,
    m: usize,
) -> bool {
    &&& m < t.len()
    &&& within(t, m, n)
    &&& kinds.contains(t[m as int].kind)
    &&& forall|a: usize|
        #![trigger within(t, m, a)]
        within(t, m, a) && within(t, a, n) && a != m ==> !kinds.contains(t[a as int].kind)
}

/// Whether `range` is the range of a nearest node of one of `kinds`
/// below `n`.
pub open spec fn range_of_nearest(
    t: Seq<NodeView>,
    kinds: Seq<Seq<char>>,
    n: usize,
    range: Range,
) -> bool {
    exists|m: usize| #[trigger] nearest_match(t, kinds, n, m) && range == t[m as int].range
}

/// A nearest node of a kind below a child of `n` is one below `n`, where
/// `n` is not of such a kind itself.
pub proof fn lemma_nearest_below_child(
    t: Seq<NodeView>,
    kinds: Seq<Seq<char>>,
    n: usize,
    k: int,
    m: usize,
)
    requires
        well_formed(t),
        n < t.len(),
        0 <= k < t[n as int].children.len(),
        !kinds.contains(t[n as int].kind),
        nearest_match(t, kinds, t[n as int].children[k], m),
    ensures
        nearest_match(t, kinds, n, m),
{
    let c = t[n as int].children[k];
    assert(linked_down(t, n as int, k));
    assert(within(t, n, n));
    assert(within(t, c, n));
    lemma_within_trans(t, m, c, n);
    assert forall|a: usize|
        #![trigger within(t, m, a)]
        within(t, m, a) && within(t, a, n) && a != m implies !kinds.contains(t[a as int].kind) by {
        lemma_within_chain(t, m, a, c);
        if !within(t, a, c) {
            // `a` lies over `c`, and within `n`: it is `n`
            assert(within(t, n, a));
            lemma_within_bounds(t, n, a);
            lemma_within_bounds(t, m, a);
            lemma_within_bounds(t, a, n);
        }
    }
}

/// What `closest_matches` gives are the ranges of nearest nodes of one of
/// `kinds` below `n`: each is of such a kind, lies within `n`, and has no
/// node of such a kind over it within `n`.
pub proof fn lemma_closest_matches(t: Seq<NodeView>, kinds: Seq<Seq<char>>, n: usize)
    requires
        well_formed(t),
        n < t.len(),
    ensures
        forall|i: int|
            0 <= i < closest_matches(t, kinds, n).len() ==> range_of_nearest(
                t,
                kinds,
                n,
                #[trigger] closest_matches(t, kinds, n)[i],
            ),
    decreases t.len() - n, 1int, 0int,
{
    if kinds.contains(t[n as int].kind) {
        assert forall|a: usize|
            #![trigger within(t, n, a)]
            within(t, n, a) && within(t, a, n) && a != n implies !kinds.contains(
            t[a as int].kind,
        ) by {
            lemma_within_bounds(t, n, a);
            lemma_within_bounds(t, a, n);
        }
        assert(nearest_match(t, kinds, n, n));
        assert(range_of_nearest(t, kinds, n, t[n as int].range));
        assert(closest_matches(t, kinds, n) =~= seq![t[n as int].range]);
    } else {
        lemma_closest_matches_below(t, kinds, n, 0);
        assert(closest_matches(t, kinds, n) == closest_matches_below(t, kinds, n, 0));
    }
}

/// What the named children of `n` from slot `k` on give to
/// `closest_matches` are ranges of nearest nodes of one of `kinds` below
/// `n`, where `n` is not of such a kind itself.
pub proof fn lemma_closest_matches_below(t: Seq<NodeView>, kinds: Seq<Seq<char>>, n: usize, k: int)
    requires
        well_formed(t),
        n < t.len(),
        0 <= k,
        !kinds.contains(t[n as int].kind),
    ensures
        forall|i: int|
            0 <= i < closest_matches_below(t, kinds, n, k).len() ==> range_of_nearest(
                t,
                kinds,
                n,
                #[trigger] closest_matches_below(t, kinds, n, k)[i],
            ),
    decreases t.len() - n, 0int, t[n as int].children.len() - k,
{
    if k < t[n as int].children.len() {
        let c = t[n as int].children[k];
        assert(linked_down(t, n as int, k));
        let head = if t[c as int].named {
            closest_matches(t, kinds, c)
        } else {
            Seq::empty()
        };
        let rest = closest_matches_below(t, kinds, n, k + 1);
        lemma_closest_matches_below(t, kinds, n, k + 1);
        if t[c as int].named {
            lemma_closest_matches(t, kinds, c);
        }
        assert forall|i: int| 0 <= i < (head + rest).len() implies range_of_nearest(
            t,
            kinds,
            n,
            #[trigger] (head + rest)[i],
        ) by {
            if i < head.len() {
                assert(range_of_nearest(t, kinds, c, head[i]));
                let m = choose|m: usize| #[trigger]
                    nearest_match(t, kinds, c, m) && head[i] == t[m as int].range;
                lemma_nearest_below_child(t, kinds, n, k, m);
            } else {
                assert((head + rest)[i] == rest[i - head.len()]);
            }
        }
    }
}

/// What `closest_matches` gives for each of `nodes`, in their order.
pub open spec fn matches_in(t: Seq<NodeView>, kinds: Seq<Seq<char>>, nodes: Seq<usize>) -> Seq<
    Range,
>
    decreases nodes.len(),
{
    if nodes.len() == 0 {
        Seq::empty()
    } else {
        matches_in(t, kinds, nodes.drop_last()) + closest_matches(t, kinds, nodes.last())
    }
}

/// The ranges of those of `nodes` whose kind the policy shows, in their
/// order.
pub open spec fn shown_among(t: Seq<NodeView>, p: PolicyView, nodes: Seq<usize>) -> Seq<Range>
    decreases nodes.len(),
{
    if nodes.len() == 0 {
        Seq::empty()
    } else {
        let last = nodes.last();
        shown_among(t, p, nodes.drop_last()) + (if visible(p, t[last as int].kind) {
            seq![t[last as int].range]
        } else {
            Seq::empty()
        })
    }
}

/// The kinds that an optional name stands for under the policy.
pub open spec fn resolved(p: PolicyView, kind: Option<String>) -> Option<Seq<Seq<char>>> {
    match kind {
        Some(name) => Some(resolve(p, name@)),
        None => None,
    }
}

/// The node that selecting the parent of `r` leads to: a strict shrink,
/// one step up where the node found is the one that `r` selects
/// exactly, then up to a node that may be selected.
pub open spec fn parent_target(t: Seq<NodeView>, p: PolicyView, r: Range) -> usize {
    let found = shrink_strict(t, 0, r);
    let from = if r.selects_exactly(t[found as int].range) {
        match t[found as int].parent {
            Some(above) => above,
            None => found,
        }
    } else {
        found
    };
    climb_to_visible(t, p, from)
}

/// The node that selecting the first child at `r` leads to: from the
/// node that may be selected at `r`, its first named child whose kind is
/// shown, or that node itself where it has none.
pub open spec fn first_child_target(t: Seq<NodeView>, p: PolicyView, r: Range) -> usize {
    let from = climb_to_visible(t, p, shrink(t, 0, r));
    match qualifying_from(t, p, None, from as int, 0) {
        Some(child) => child,
        None => from,
    }
}

/// What a request asks for.
#[allow(inconsistent_fields)]
pub enum Op {
    /// Show the tree below the first selection as text.
    NodeSExp,
    /// Select the children of each selected node: its named children whose
    /// kind is shown, or, with a kind, the nearest nodes of that kind
    /// below.
    SelectChildren { kind: Option<String> },
    /// Select the first child of each selected node.
    SelectFirstChild,
    /// Select the nearest nodes of a kind within each selection.
    SelectKind { kind: String },
    /// Select the node behind each selected node.
    SelectNextNode { kind: Option<String> },
    /// Select the node above each selected node, or the nearest one of a
    /// kind.
    SelectParentNode { kind: Option<String> },
    /// Select the node before each selected node.
    SelectPreviousNode { kind: Option<String> },
}

/// The ranges that one selected range `r` gives under `op`.
pub open spec fn contribution(t: Seq<NodeView>, p: PolicyView, op: Op, r: Range) -> Seq<Range> {
    match op {
        Op::NodeSExp => Seq::empty(),
        Op::SelectChildren { kind } => match kind {
            Some(name) => matches_in(t, resolve(p, name@), nodes_for(t, 0, r)),
            None => shown_among(t, p, named_children_from(t, shrink(t, 0, r) as int, 0)),
        },
        Op::SelectFirstChild => seq![t[first_child_target(t, p, r) as int].range],
        Op::SelectKind { kind } => matches_in(t, resolve(p, kind@), nodes_for(t, 0, r)),
        Op::SelectNextNode { kind } => seq![
            t[next_target(
                t,
                p,
                resolved(p, kind),
                climb_to_visible(t, p, shrink(t, 0, r)),
            ) as int].range,
        ],
        Op::SelectParentNode { kind } => match kind {
            Some(name) => match nearest_of_kinds(t, resolve(p, name@), shrink(t, 0, r)) {
                Some(found) => seq![t[found as int].range],
                None => Seq::empty(),
            },
            None => seq![t[parent_target(t, p, r) as int].range],
        },
        Op::SelectPreviousNode { kind } => seq![
            t[prev_target(
                t,
                p,
                resolved(p, kind),
                climb_to_visible(t, p, shrink(t, 0, r)),
            ) as int].range,
        ],
    }
}

/// The ranges that the selected `ranges` give under `op`: what each
/// gives, in the order of `ranges`.
pub open spec fn selection(t: Seq<NodeView>, p: PolicyView, op: Op, ranges: Seq<Range>) -> Seq<
    Range,
>
    decreases ranges.len(),
{
    if ranges.len() == 0 {
        Seq::empty()
    } else {
        selection(t, p, op, ranges.drop_last()) + contribution(t, p, op, ranges.last())
    }
}

/// The kinds that the name in `op` stands for under the policy, if `op`
/// names a kind.
pub open spec fn op_kinds(p: PolicyView, op: Op) -> Option<Seq<Seq<char>>> {
    match op {
        Op::NodeSExp => None,
        Op::SelectChildren { kind } => resolved(p, kind),
        Op::SelectFirstChild => None,
        Op::SelectKind { kind } => Some(resolve(p, kind@)),
        Op::SelectNextNode { kind } => resolved(p, kind),
        Op::SelectParentNode { kind } => resolved(p, kind),
        Op::SelectPreviousNode { kind } => resolved(p, kind),
    }
}

/// Resolves the name of a kind that `op` carries, if it carries one.
pub fn resolve_op_kinds(filetype_config: &FiletypeConfig, op: &Op) -> (kinds: Option<Vec<String>>)
    ensures
        filter_of(kinds) == op_kinds(filetype_config@, *op),
{
    let name: Option<&String> = match op {
        Op::NodeSExp => None,
        Op::SelectChildren { kind } => kind.as_ref(),
        Op::SelectFirstChild => None,
        Op::SelectKind { kind } => Some(kind),
        Op::SelectNextNode { kind } => kind.as_ref(),
        Op::SelectParentNode { kind } => kind.as_ref(),
        Op::SelectPreviousNode { kind } => kind.as_ref(),
    };
    match name {
        Some(name) => Some(filetype_config.resolve_alias(name.as_str())),
        None => None,
    }
}

/// Adds to `new_ranges` the ranges of the nearest nodes of one of `kinds`
/// within `range`: the range is cut into the nodes that it falls into,
/// and each is searched for the nearest nodes of such a kind.
pub fn select_kind(
    tree: &SyntaxTree,
    kinds: &Vec<String>,
    range: &Range,
    new_ranges: &mut Vec<Range>,
)
    requires
        tree.wf(),
    ensures
        final(new_ranges)@ == old(new_ranges)@ + matches_in(
            tree@,
            texts(kinds@),
            nodes_for(tree@, 0, *range),
        ),
{
    let ghost start = new_ranges@;
    let nodes = nodes_in_range(tree, 0, range);
    let mut i: usize = 0;
    proof {
        assert(nodes@.take(0) =~= Seq::<usize>::empty());
        assert(start + Seq::<Range>::empty() =~= start);
    }
    while i < nodes.len()
        invariant
            tree.wf(),
            i <= nodes@.len(),
            forall|j: int| 0 <= j < nodes@.len() ==> #[trigger] nodes@[j] < tree@.len(),
            new_ranges@ == start + matches_in(tree@, texts(kinds@), nodes@.take(i as int)),
        decreases nodes@.len() - i,
    {
        let ghost before = matches_in(tree@, texts(kinds@), nodes@.take(i as int));
        select_nodes(tree, nodes[i], kinds, new_ranges);
        proof {
            let upto = nodes@.take(i + 1);
            assert(upto.drop_last() =~= nodes@.take(i as int));
            assert(upto.last() == nodes@[i as int]);
            let found = closest_matches(tree@, texts(kinds@), nodes@[i as int]);
            assert(start + before + found =~= start + (before + found));
        }
        i += 1;
    }
    proof {
        assert(nodes@.take(nodes@.len() as int) =~= nodes@);
    }
}

/// Adds to `new_ranges` the ranges of the named children of the node at
/// `range` whose kind the policy shows, in document order.
pub fn select_children(
    filetype_config: &FiletypeConfig,
    tree: &SyntaxTree,
    range: &Range,
    new_ranges: &mut Vec<Range>,
)
    requires
        tree.wf(),
    ensures
        final(new_ranges)@ == old(new_ranges)@ + shown_among(
            tree@,
            filetype_config@,
            named_children_from(tree@, shrink(tree@, 0, *range) as int, 0),
        ),
{
    let ghost start = new_ranges@;
    let node = shrink_to_range(tree, 0, range);
    let children = named_children(tree, node);
    let mut i: usize = 0;
    proof {
        assert(children@.take(0) =~= Seq::<usize>::empty());
        assert(start + Seq::<Range>::empty() =~= start);
    }
    while i < children.len()
        invariant
            tree.wf(),
            i <= children@.len(),
            forall|j: int| 0 <= j < children@.len() ==> #[trigger] children@[j] < tree@.len(),
            new_ranges@ == start + shown_among(tree@, filetype_config@, children@.take(i as int)),
        decreases children@.len() - i,
    {
        let ghost before = shown_among(tree@, filetype_config@, children@.take(i as int));
        let child = children[i];
        proof {
            let upto = children@.take(i + 1);
            assert(upto.drop_last() =~= children@.take(i as int));
            assert(upto.last() == child);
        }
        if filetype_config.is_node_visible(tree.kind(child)) {
            new_ranges.push(tree.range(child));
            proof {
                assert(new_ranges@ =~= start + (before + seq![tree@[child as int].range]));
            }
        } else {
            proof {
                assert(new_ranges@ =~= start + (before + Seq::<Range>::empty()));
            }
        }
        i += 1;
    }
    proof {
        assert(children@.take(children@.len() as int) =~= children@);
    }
}

/// The node above the one that `range` selects: the range is shrunk
/// strictly; where the node found is still the one that `range` selects
/// exactly, its parent is taken; from there the walk goes up to a node
/// that may be selected.
pub fn select_parent(
    filetype_config: &FiletypeConfig,
    tree: &SyntaxTree,
    range: &Range,
) -> (node: usize)
    requires
        tree.wf(),
    ensures
        node == parent_target(tree@, filetype_config@, *range),
        node < tree@.len(),
{
    let found = shrink_to_range_strict(tree, 0, range);
    let from = if range.is_selection_of(&tree.range(found)) {
        match tree.parent(found) {
            Some(above) => above,
            None => found,
        }
    } else {
        found
    };
    traverse_up_to_node_which_matters(filetype_config, tree, from)
}

/// The first child of the node at `range`: from the node there that may
/// be selected, its first named child whose kind the policy shows, or
/// that node itself where it has none.
pub fn select_first_child(
    filetype_config: &FiletypeConfig,
    tree: &SyntaxTree,
    range: &Range,
) -> (node: usize)
    requires
        tree.wf(),
    ensures
        node == first_child_target(tree@, filetype_config@, *range),
        node < tree@.len(),
{
    let found = shrink_to_range(tree, 0, range);
    let from = traverse_up_to_node_which_matters(filetype_config, tree, found);
    let count = tree.child_count(from);
    let mut k: usize = 0;
    while k < count
        invariant
            tree.wf(),
            from < tree@.len(),
            from == climb_to_visible(tree@, filetype_config@, shrink(tree@, 0, *range)),
            count == tree@[from as int].children.len(),
            k <= count,
            qualifying_from(tree@, filetype_config@, None, from as int, 0) == qualifying_from(
                tree@,
                filetype_config@,
                None,
                from as int,
                k as int,
            ),
        decreases count - k,
    {
        let child = tree.child(from, k);
        if tree.is_named(child) && filetype_config.is_node_visible(tree.kind(child)) {
            return child;
        }
        k += 1;
    }
    from
}

/// Adds to `new_ranges` what the selected `range` gives under `op`.
/// `kinds` holds the kinds that the name in `op` stands for.
pub fn select_for_range(
    filetype_config: &FiletypeConfig,
    tree: &SyntaxTree,
    op: &Op,
    kinds: &Option<Vec<String>>,
    range: &Range,
    new_ranges: &mut Vec<Range>,
)
    requires
        tree.wf(),
        filter_of(*kinds) == op_kinds(filetype_config@, *op),
    ensures
        final(new_ranges)@ == old(new_ranges)@ + contribution(
            tree@,
            filetype_config@,
            *op,
            *range,
        ),
{
    let ghost start = new_ranges@;
    match op {
        Op::NodeSExp => {
            proof {
                assert(start + Seq::<Range>::empty() =~= start);
            }
        },
        Op::SelectChildren { kind: _ } => {
            match kinds {
                Some(list) => select_kind(tree, list, range, new_ranges),
                None => select_children(filetype_config, tree, range, new_ranges),
            }
        },
        Op::SelectFirstChild => {
            let node = select_first_child(filetype_config, tree, range);
            new_ranges.push(tree.range(node));
            proof {
                assert(new_ranges@ =~= start + seq![tree@[node as int].range]);
            }
        },
        Op::SelectKind { kind: _ } => {
            match kinds {
                Some(list) => select_kind(tree, list, range, new_ranges),
                None => {},
            }
        },
        Op::SelectNextNode { kind: _ } => {
            let found = shrink_to_range(tree, 0, range);
            let from = traverse_up_to_node_which_matters(filetype_config, tree, found);
            let node = next_node(filetype_config, tree, from, kinds);
            new_ranges.push(tree.range(node));
            proof {
                assert(new_ranges@ =~= start + seq![tree@[node as int].range]);
            }
        },
        Op::SelectParentNode { kind: _ } => {
            match kinds {
                Some(list) => {
                    let found = shrink_to_range(tree, 0, range);
                    match parent_of_kinds(tree, found, list) {
                        Some(node) => {
                            new_ranges.push(tree.range(node));
                            proof {
                                assert(new_ranges@ =~= start + seq![tree@[node as int].range]);
                            }
                        },
                        None => {
                            proof {
                                assert(start + Seq::<Range>::empty() =~= start);
                            }
                        },
                    }
                },
                None => {
                    let node = select_parent(filetype_config, tree, range);
                    new_ranges.push(tree.range(node));
                    proof {
                        assert(new_ranges@ =~= start + seq![tree@[node as int].range]);
                    }
                },
            }
        },
        Op::SelectPreviousNode { kind: _ } => {
            let found = shrink_to_range(tree, 0, range);
            let from = traverse_up_to_node_which_matters(filetype_config, tree, found);
            let node = previous_node(filetype_config, tree, from, kinds);
            new_ranges.push(tree.range(node));
            proof {
                assert(new_ranges@ =~= start + seq![tree@[node as int].range]);
            }
        },
    }
}

/// The new selection that `op` makes of the selected `ranges`: what
/// each range gives, in the order of `ranges`, neither sorted nor with
/// doubles removed. A range that gives nothing leaves no trace.
pub fn select(
    filetype_config: &FiletypeConfig,
    tree: &SyntaxTree,
    op: &Op,
    ranges: &Vec<Range>,
) -> (new_ranges: Vec<Range>)
    requires
        tree.wf(),
    ensures
        new_ranges@ == selection(tree@, filetype_config@, *op, ranges@),
{
    let kinds = resolve_op_kinds(filetype_config, op);
    let mut new_ranges: Vec<Range> = Vec::new();
    let mut i: usize = 0;
    proof {
        assert(ranges@.take(0) =~= Seq::<Range>::empty());
    }
    while i < ranges.len()
        invariant
            tree.wf(),
            i <= ranges@.len(),
            filter_of(kinds) == op_kinds(filetype_config@, *op),
            new_ranges@ == selection(tree@, filetype_config@, *op, ranges@.take(i as int)),
        decreases ranges@.len() - i,
    {
        proof {
            let upto = ranges@.take(i + 1);
            assert(upto.drop_last() =~= ranges@.take(i as int));
            assert(upto.last() == ranges@[i as int]);
        }
        select_for_range(filetype_config, tree, op, &kinds, &ranges[i], &mut new_ranges);
        i += 1;
    }
    proof {
        assert(ranges@.take(ranges@.len() as int) =~= ranges@);
    }
    new_ranges
}

} // verus!
