//! The node locator: one walk over the live tree that finds the nodes that
//! the patches are for.
use std::collections::HashMap;
use std::collections::HashSet;
use vstd::prelude::*;
use crate::host::LiveTree;
use crate::live::{LiveTreeView, NodeKind};
use crate::patch::{targets, Patch};

verus! {

/// The element `n` and what is counted below it, in document order.
pub open spec fn subtree_order(t: LiveTreeView, n: int) -> Seq<usize>
    decreases t.nodes.len() - n, t.nodes[n].children.len() + 1,
{
    if 0 <= n < t.nodes.len() {
        seq![n as usize] + children_order(t, n, t.nodes[n].children.len())
    } else {
        Seq::empty()
    }
}

/// What is counted for the first `k` children of `n`: an element with all
/// that is counted below it, a text node alone, nothing for a comment or a
/// node of another kind.
pub open spec fn children_order(t: LiveTreeView, n: int, k: nat) -> Seq<usize>
    decreases t.nodes.len() - n, k,
{
    if k == 0 || !(0 <= n < t.nodes.len()) || k > t.nodes[n].children.len() {
        Seq::empty()
    } else {
        children_order(t, n, (k - 1) as nat) + child_order(t, n, t.nodes[n].children[k - 1])
    }
}

/// What is counted for the child `c` of `n`.
pub open spec fn child_order(t: LiveTreeView, n: int, c: usize) -> Seq<usize>
    decreases t.nodes.len() - n, 0nat,
{
    if 0 <= n < c < t.nodes.len() {
        match t.nodes[c as int].kind {
            NodeKind::Element => subtree_order(t, c as int),
            NodeKind::Text => seq![c],
            _ => Seq::empty(),
        }
    } else {
        Seq::empty()
    }
}

/// The numbering of the tree: at index `i` stands the node that patches
/// call `i`. The root is counted first whatever its kind; below it only
/// elements and text nodes are.
pub open spec fn numbering(t: LiveTreeView) -> Seq<usize> {
    subtree_order(t, t.root as int)
}

/// The wanted indices within `order` whose node is of the given kind, each
/// with its node.
pub open spec fn located(t: LiveTreeView, order: Seq<usize>, wanted: Set<usize>, kind: NodeKind) -> Map<
    usize,
    usize,
> {
    Map::new(
        |i: usize| wanted.contains(i) && i < order.len() && t.nodes[order[i as int] as int].kind == kind,
        |i: usize| order[i as int],
    )
}

/// Counts `node`, and records it where its index is wanted and it is an
/// element or a text node.
fn visit(
    tree: &LiveTree,
    node: usize,
    cur_node_idx: &mut Option<usize>,
    nodes_to_find: &HashSet<usize>,
    element_nodes_to_patch: &mut HashMap<usize, usize>,
    text_nodes_to_patch: &mut HashMap<usize, usize>,
    Ghost(done): Ghost<Seq<usize>>,
)
    requires
        node < tree@.nodes.len(),
        match *old(cur_node_idx) {
            Some(c) => c == done.len(),
            None => done.len() > usize::MAX,
        },
        old(element_nodes_to_patch)@ == located(tree@, done, nodes_to_find@, NodeKind::Element),
        old(text_nodes_to_patch)@ == located(tree@, done, nodes_to_find@, NodeKind::Text),
    ensures
        match *final(cur_node_idx) {
            Some(c) => c == done.len() + 1,
            None => done.len() + 1 > usize::MAX,
        },
        final(element_nodes_to_patch)@ == located(
            tree@,
            done.push(node),
            nodes_to_find@,
            NodeKind::Element,
        ),
        final(text_nodes_to_patch)@ == located(tree@, done.push(node), nodes_to_find@, NodeKind::Text),
{
    broadcast use vstd::std_specs::hash::group_hash_axioms;

    match *cur_node_idx {
        Some(cur) => {
            if nodes_to_find.contains(&cur) {
                match tree.kind(node) {
                    NodeKind::Element => {
                        element_nodes_to_patch.insert(cur, node);
                    },
                    NodeKind::Text => {
                        text_nodes_to_patch.insert(cur, node);
                    },
                    _ => {},
                }
            }
            *cur_node_idx = cur.checked_add(1);
        },
        None => {},
    }
    proof {
        assert(element_nodes_to_patch@ =~= located(
            tree@,
            done.push(node),
            nodes_to_find@,
            NodeKind::Element,
        ));
        assert(text_nodes_to_patch@ =~= located(
            tree@,
            done.push(node),
            nodes_to_find@,
            NodeKind::Text,
        ));
    }
}

/// Walks the subtree of `root_node` and records the wanted nodes in it.
fn find_nodes_recursive(
    tree: &LiveTree,
    root_node: usize,
    cur_node_idx: &mut Option<usize>,
    nodes_to_find: &HashSet<usize>,
    element_nodes_to_patch: &mut HashMap<usize, usize>,
    text_nodes_to_patch: &mut HashMap<usize, usize>,
    Ghost(done): Ghost<Seq<usize>>,
)
    requires
        tree@.wf(),
        root_node < tree@.nodes.len(),
        match *old(cur_node_idx) {
            Some(c) => c == done.len(),
            None => done.len() > usize::MAX,
        },
        old(element_nodes_to_patch)@ == located(tree@, done, nodes_to_find@, NodeKind::Element),
        old(text_nodes_to_patch)@ == located(tree@, done, nodes_to_find@, NodeKind::Text),
    ensures
        match *final(cur_node_idx) {
            Some(c) => c == (done + subtree_order(tree@, root_node as int)).len(),
            None => (done + subtree_order(tree@, root_node as int)).len() > usize::MAX,
        },
        final(element_nodes_to_patch)@ == located(
            tree@,
            done + subtree_order(tree@, root_node as int),
            nodes_to_find@,
            NodeKind::Element,
        ),
        final(text_nodes_to_patch)@ == located(
            tree@,
            done + subtree_order(tree@, root_node as int),
            nodes_to_find@,
            NodeKind::Text,
        ),
    decreases tree@.nodes.len() - root_node,
{
    visit(
        tree,
        root_node,
        cur_node_idx,
        nodes_to_find,
        element_nodes_to_patch,
        text_nodes_to_patch,
        Ghost(done),
    );
    let child_node_count = tree.child_count(root_node);
    let ghost start = done.push(root_node);
    let mut i: usize = 0;
    proof {
        assert(start + children_order(tree@, root_node as int, 0) =~= start);
    }
    while i < child_node_count
        invariant
            i <= child_node_count,
            tree@.wf(),
            root_node < tree@.nodes.len(),
            child_node_count == tree@.nodes[root_node as int].children.len(),
            start == done.push(root_node),
            match *cur_node_idx {
                Some(c) => c == (start + children_order(tree@, root_node as int, i as nat)).len(),
                None => (start + children_order(tree@, root_node as int, i as nat)).len()
                    > usize::MAX,
            },
            element_nodes_to_patch@ == located(
                tree@,
                start + children_order(tree@, root_node as int, i as nat),
                nodes_to_find@,
                NodeKind::Element,
            ),
            text_nodes_to_patch@ == located(
                tree@,
                start + children_order(tree@, root_node as int, i as nat),
                nodes_to_find@,
                NodeKind::Text,
            ),
        decreases child_node_count - i,
    {
        let child_node = tree.child_at(root_node, i);
        let ghost before = start + children_order(tree@, root_node as int, i as nat);
        proof {
            assert(tree@.node_ok(root_node as int));
            assert(tree@.nodes[root_node as int].children[i as int] == child_node);
            assert(children_order(tree@, root_node as int, (i + 1) as nat) == children_order(
                tree@,
                root_node as int,
                i as nat,
            ) + child_order(tree@, root_node as int, child_node));
            assert(start + children_order(tree@, root_node as int, (i + 1) as nat) =~= before
                + child_order(tree@, root_node as int, child_node));
        }
        match tree.kind(child_node) {
            NodeKind::Element => {
                find_nodes_recursive(
                    tree,
                    child_node,
                    cur_node_idx,
                    nodes_to_find,
                    element_nodes_to_patch,
                    text_nodes_to_patch,
                    Ghost(before),
                );
            },
            NodeKind::Text => {
                visit(
                    tree,
                    child_node,
                    cur_node_idx,
                    nodes_to_find,
                    element_nodes_to_patch,
                    text_nodes_to_patch,
                    Ghost(before),
                );
                proof {
                    assert(before.push(child_node) =~= before + seq![child_node]);
                }
            },
            _ => {
                proof {
                    assert(before + Seq::<usize>::empty() =~= before);
                }
            },
        }
        i = i + 1;
    }
    proof {
        assert(done + subtree_order(tree@, root_node as int) =~= start + children_order(
            tree@,
            root_node as int,
            child_node_count as nat,
        ));
    }
}

/// Finds the nodes that `patches` are for: the elements among them by
/// index, and the text nodes among them by index. An index that the tree
/// does not reach, or whose node is neither, is in neither map.
pub fn find_nodes(tree: &LiveTree, patches: &[Patch]) -> (found: (
    HashMap<usize, usize>,
    HashMap<usize, usize>,
))
    requires
        tree@.wf(),
    ensures
        found.0@ == located(tree@, numbering(tree@), targets(patches@), NodeKind::Element),
        found.1@ == located(tree@, numbering(tree@), targets(patches@), NodeKind::Text),
{
    broadcast use vstd::std_specs::hash::group_hash_axioms;

    let mut nodes_to_find: HashSet<usize> = HashSet::new();
    let mut k: usize = 0;
    while k < patches.len()
        invariant
            k <= patches.len(),
            nodes_to_find@ == targets(patches@.take(k as int)),
        decreases patches.len() - k,
    {
        nodes_to_find.insert(patches[k].node_idx());
        proof {
            let before = patches@.take(k as int);
            let after = patches@.take(k + 1);
            assert forall|idx: usize| #[trigger]
                targets(after).contains(idx) <==> (targets(before).contains(idx) || idx
                    == patches@[k as int].target()) by {
                if targets(after).contains(idx) {
                    let w = choose|w: int| 0 <= w < after.len() && (#[trigger] after[w]).target() == idx;
                    if w < k {
                        assert(before[w].target() == idx);
                    }
                }
                if targets(before).contains(idx) {
                    let w = choose|w: int|
                        0 <= w < before.len() && (#[trigger] before[w]).target() == idx;
                    assert(after[w].target() == idx);
                }
                if idx == patches@[k as int].target() {
                    assert(after[k as int].target() == idx);
                }
            }
            assert(nodes_to_find@ =~= targets(after));
        }
        k = k + 1;
    }
    proof {
        assert(patches@.take(patches.len() as int) =~= patches@);
    }
    let mut cur_node_idx: Option<usize> = Some(0);
    let mut element_nodes_to_patch: HashMap<usize, usize> = HashMap::new();
    let mut text_nodes_to_patch: HashMap<usize, usize> = HashMap::new();
    let ghost nothing = Seq::<usize>::empty();
    proof {
        assert(nodes_to_find@ =~= targets(patches@));
        assert(element_nodes_to_patch@ =~= located(
            tree@,
            nothing,
            nodes_to_find@,
            NodeKind::Element,
        ));
        assert(text_nodes_to_patch@ =~= located(tree@, nothing, nodes_to_find@, NodeKind::Text));
    }
    find_nodes_recursive(
        tree,
        tree.root(),
        &mut cur_node_idx,
        &nodes_to_find,
        &mut element_nodes_to_patch,
        &mut text_nodes_to_patch,
        Ghost(nothing),
    );
    proof {
        assert(nothing + numbering(tree@) =~= numbering(tree@));
    }
    (element_nodes_to_patch, text_nodes_to_patch)
}

/// The numbering of a subtree names nodes of the tree only.
pub proof fn lemma_subtree_order_valid(t: LiveTreeView, n: int)
    ensures
        forall|i: int|
            0 <= i < subtree_order(t, n).len() ==> (#[trigger] subtree_order(t, n)[i])
                < t.nodes.len(),
    decreases t.nodes.len() - n, t.nodes[n].children.len() + 1,
{
    if 0 <= n < t.nodes.len() {
        lemma_children_order_valid(t, n, t.nodes[n].children.len());
        let below = children_order(t, n, t.nodes[n].children.len());
        assert forall|i: int| 0 <= i < subtree_order(t, n).len() implies (#[trigger] subtree_order(
            t,
            n,
        )[i]) < t.nodes.len() by {
            if i > 0 {
                assert(subtree_order(t, n)[i] == below[i - 1]);
            }
        }
    }
}

/// The numbering of the children of a node names nodes of the tree only.
pub proof fn lemma_children_order_valid(t: LiveTreeView, n: int, k: nat)
    ensures
        forall|i: int|
            0 <= i < children_order(t, n, k).len() ==> (#[trigger] children_order(t, n, k)[i])
                < t.nodes.len(),
    decreases t.nodes.len() - n, k,
{
    if k == 0 || !(0 <= n < t.nodes.len()) || k > t.nodes[n].children.len() {
    } else {
        lemma_children_order_valid(t, n, (k - 1) as nat);
        let c = t.nodes[n].children[k - 1];
        if 0 <= n < c < t.nodes.len() && t.nodes[c as int].kind == NodeKind::Element {
            lemma_subtree_order_valid(t, c as int);
        }
        let before = children_order(t, n, (k - 1) as nat);
        let last = child_order(t, n, c);
        assert forall|i: int| 0 <= i < children_order(t, n, k).len() implies (
        #[trigger] children_order(t, n, k)[i]) < t.nodes.len() by {
            if i < before.len() {
                assert(children_order(t, n, k)[i] == before[i]);
            } else {
                let j = i - before.len();
                assert(children_order(t, n, k)[i] == last[j]);
                if 0 <= n < c < t.nodes.len() && t.nodes[c as int].kind == NodeKind::Element {
                    assert(last == subtree_order(t, c as int));
                    assert(subtree_order(t, c as int)[j] < t.nodes.len());
                }
            }
        }
    }
}

} // verus!
