//! The patch applier: applies each patch to the node that it was located
//! for, retires the callbacks of what leaves the tree, and collects the
//! callbacks of what enters it.
use vstd::prelude::*;
use crate::closures::{
    lemma_retained_is_retired, lemma_subtree_ids_same, remove_event_listeners, retained, retire_ops, retired, subtree_ids,
    ActiveClosure,
};
use crate::create::{
    apply_attribute, attributes_applied, children_owners, count_owners, create_node,
    node_created, owners,
};
use crate::error::Error;
use crate::host::{lemma_journaled_wf, lemma_remove_child_wf};
use crate::live::{child_position, is_node, lemma_first_where, LiveTreeView, NodeKind};
use crate::host::LiveTree;
use crate::liveness::{
    accounted, carried_under, lemma_can_be_retired, lemma_retire_spares_others,
    lemma_under_avoiding, lemma_under_one_child, under, lemma_detached_accounted, lemma_grown_accounted, lemma_kept_owned,
    lemma_lives_kept_detached, lemma_lives_kept_in_place, lemma_no_ids_without_children,
    lemma_retired_accounted, lemma_retired_entries, lemma_retired_ids_absent, lemma_retired_owned,
    lemma_same_shape_accounted, lemma_survivors_keep_on, lemma_survivors_keep_retired, lives_kept,
    owned, same_shape, survivors_keep,
};
use crate::locate::{find_nodes, lemma_subtree_order_valid, located, numbering};
use crate::patch::{targets, Patch};
use crate::vdom::{Callback, Node};

verus! {

/// The state of a reconciliation cycle: the live tree, the registry that
/// the cycle started with, and the callbacks registered during the cycle.
pub struct Cycle {
    pub tree: LiveTreeView,
    pub registry: Map<u32, Seq<(Seq<char>, Callback)>>,
    pub created: Map<u32, Seq<(Seq<char>, Callback)>>,
}

/// Whether `new` can follow `old` in a cycle: it is well formed, still
/// holds every node of `old`, and no node has changed its kind.
pub open spec fn follows(old: LiveTreeView, new: LiveTreeView) -> bool {
    &&& new.wf()
    &&& old.nodes.len() <= new.nodes.len()
    &&& forall|n: int|
        0 <= n < old.nodes.len() ==> (#[trigger] new.nodes[n]).kind == old.nodes[n].kind
}

/// The live tree after the attributes called by the first `k` of `names`
/// were removed from `node`.
pub open spec fn attributes_removed(t: LiveTreeView, node: usize, names: Seq<String>, k: nat) -> LiveTreeView
    decreases k,
{
    if k == 0 || k > names.len() {
        t
    } else {
        attributes_removed(t, node, names, (k - 1) as nat).remove_attribute(node, names[k - 1]@)
    }
}

/// What a step of a cycle comes to: the state that it leaves, and the error
/// that ended it, if one did. A step that fails leaves the state that it
/// had reached.
pub struct Outcome {
    pub state: Cycle,
    pub error: Option<Error>,
}

/// The outcome of a step that leaves `state` and succeeds.
pub open spec fn done(state: Cycle) -> Outcome {
    Outcome { state, error: None }
}

/// The outcome of a step that leaves `state` and ends the cycle with
/// `error`.
pub open spec fn failed(state: Cycle, error: Error) -> Outcome {
    Outcome { state, error: Some(error) }
}

/// The state after the callbacks of `node` and of all below it were
/// retired, as far as their identifiers had entries: the host was asked to
/// unregister them, and their entries left the registry.
pub open spec fn callbacks_retired(s: Cycle, node: usize) -> Cycle {
    let ids = subtree_ids(s.tree, node as int);
    Cycle {
        tree: s.tree.journaled(retire_ops(s.registry, node, ids, ids.len())),
        registry: retained(s.registry, ids, ids.len()),
        created: s.created,
    }
}

/// Whether every identifier carried at or below `node` has an entry when
/// its turn to be retired comes.
pub open spec fn can_retire(s: Cycle, node: usize) -> bool {
    retired(
        s.registry,
        subtree_ids(s.tree, node as int),
        subtree_ids(s.tree, node as int).len(),
    ) is Some
}

/// The number of children among the first `k` of `children` that are no
/// comments.
pub open spec fn counted_children(t: LiveTreeView, children: Seq<usize>, k: nat) -> nat
    decreases k,
{
    if k == 0 || k > children.len() {
        0
    } else {
        counted_children(t, children, (k - 1) as nat) + (if t.nodes[children[k - 1] as int].kind
            == NodeKind::Comment {
            0nat
        } else {
            1nat
        })
    }
}

/// The number of children that have to go so that `node` keeps `remaining`
/// of them: comments are not counted, and nothing has to go where the
/// element has no more than `remaining` other children.
pub open spec fn excess(t: LiveTreeView, node: usize, remaining: usize) -> nat {
    let children = t.nodes[node as int].children;
    let counted = counted_children(t, children, children.len());
    if remaining >= counted {
        0
    } else {
        (counted - remaining) as nat
    }
}

/// Children dropped from the end of `node`: the walk goes from the child at
/// position `at - 1` towards the first, and ends when `budget` children were
/// dropped. A comment is passed over and stays where it is. Of any other
/// child the callbacks, and those of all below it, are retired, and the child
/// is removed. A callback without an entry ends the walk.
pub open spec fn children_dropped(s: Cycle, node: usize, at: nat, budget: nat) -> Outcome
    decreases at,
{
    if at == 0 || budget == 0 {
        done(s)
    } else {
        let child = s.tree.nodes[node as int].children[at - 1];
        if s.tree.nodes[child as int].kind == NodeKind::Comment {
            children_dropped(s, node, (at - 1) as nat, budget)
        } else {
            let told = callbacks_retired(s, child);
            if !can_retire(s, child) {
                failed(told, Error::RegistryInconsistency)
            } else {
                children_dropped(
                    Cycle { tree: told.tree.remove_child(node, child), ..told },
                    node,
                    (at - 1) as nat,
                    (budget - 1) as nat,
                )
            }
        }
    }
}

/// `node` truncated to `remaining` children: comments stay and are not
/// counted, and of the other children those after the first `remaining` are
/// dropped, the last first.
pub open spec fn truncated(s: Cycle, node: usize, remaining: usize) -> Outcome {
    children_dropped(
        s,
        node,
        s.tree.nodes[node as int].children.len(),
        excess(s.tree, node, remaining),
    )
}

/// The state after live subtrees were built for the first `k` of `nodes`
/// and appended to `node`.
pub open spec fn children_appended(s: Cycle, node: usize, nodes: Seq<Node>, k: nat, wired: bool) -> Cycle
    decreases k,
{
    if k == 0 || k > nodes.len() {
        s
    } else {
        let before = children_appended(s, node, nodes, (k - 1) as nat, wired);
        let built = node_created(before.tree, before.created, nodes[k - 1], wired);
        Cycle {
            tree: built.tree.append_child(node, before.tree.nodes.len() as usize),
            registry: before.registry,
            created: built.closures,
        }
    }
}

/// A new subtree in the place of the element `node`: the callbacks of
/// `node` and of all below it are retired, the subtree is built, and it
/// replaces `node`. Where a callback to retire has no entry, nothing is
/// built.
pub open spec fn element_replaced(s: Cycle, node: usize, new_node: Node, wired: bool) -> Outcome {
    let told = callbacks_retired(s, node);
    if !can_retire(s, node) {
        failed(told, Error::RegistryInconsistency)
    } else {
        let built = node_created(told.tree, told.created, new_node, wired);
        done(
            Cycle {
                tree: built.tree.replace_with(node, told.tree.nodes.len() as usize),
                registry: told.registry,
                created: built.closures,
            },
        )
    }
}

/// `patch` applied to the element `node`. A patch that keeps more children
/// than the element has, comments included, and a change of text, cannot be
/// applied to it and change nothing.
pub open spec fn element_patched(s: Cycle, node: usize, patch: Patch, wired: bool) -> Outcome {
    match patch {
        Patch::AddAttributes(_, _, attrs) => done(
            Cycle { tree: attributes_applied(s.tree, node, attrs@, attrs@.len()), ..s },
        ),
        Patch::RemoveAttributes(_, _, names) => done(
            Cycle { tree: attributes_removed(s.tree, node, names@, names@.len()), ..s },
        ),
        Patch::Replace(_, _, new_node) => element_replaced(s, node, new_node, wired),
        Patch::TruncateChildren(_, _, remaining) => {
            let count = s.tree.nodes[node as int].children.len();
            if remaining > count {
                failed(s, Error::StructuralInconsistency)
            } else {
                truncated(s, node, remaining)
            }
        },
        Patch::AppendChildren(_, _, nodes) => done(
            children_appended(s, node, nodes@, nodes@.len(), wired),
        ),
        Patch::ChangeText(_, _) => failed(s, Error::StructuralInconsistency),
    }
}

/// `patch` applied to the text node `node`. Only a change of text and a
/// replacement can be applied to it; any other patch changes nothing. A text
/// node has no callbacks to retire.
pub open spec fn text_patched(s: Cycle, node: usize, patch: Patch, wired: bool) -> Outcome {
    match patch {
        Patch::ChangeText(_, text) => done(Cycle { tree: s.tree.set_text(node, text@), ..s }),
        Patch::Replace(_, _, new_node) => {
            let built = node_created(s.tree, s.created, new_node, wired);
            done(
                Cycle {
                    tree: built.tree.replace_with(node, s.tree.nodes.len() as usize),
                    registry: s.registry,
                    created: built.closures,
                },
            )
        },
        _ => failed(s, Error::StructuralInconsistency),
    }
}

/// The number of identifiers that applying `patch` hands out where
/// callbacks are wired.
pub open spec fn patch_owners(patch: Patch) -> nat {
    match patch {
        Patch::Replace(_, _, new_node) => owners(new_node),
        Patch::AppendChildren(_, _, nodes) => children_owners(nodes@, nodes@.len()),
        _ => 0,
    }
}

/// The number of identifiers that applying the first `k` of `patches`
/// hands out where callbacks are wired.
pub open spec fn patches_owners(patches: Seq<Patch>, k: nat) -> nat
    decreases k,
{
    if k == 0 || k > patches.len() {
        0
    } else {
        patches_owners(patches, (k - 1) as nat) + patch_owners(patches[k - 1])
    }
}

/// `patch` applied to the node that was located for it: as an element
/// where `elements` holds its target, else as a text node where `texts`
/// does. A patch whose target was not located cannot be applied and changes
/// nothing.
pub open spec fn patch_applied(
    elements: Map<usize, usize>,
    texts: Map<usize, usize>,
    s: Cycle,
    patch: Patch,
    wired: bool,
) -> Outcome {
    if elements.contains_key(patch.target()) {
        element_patched(s, elements[patch.target()], patch, wired)
    } else if texts.contains_key(patch.target()) {
        text_patched(s, texts[patch.target()], patch, wired)
    } else {
        failed(s, Error::StructuralInconsistency)
    }
}

/// The first `k` of `patches` applied in order; the first failure ends the
/// cycle.
pub open spec fn patches_applied(
    elements: Map<usize, usize>,
    texts: Map<usize, usize>,
    s: Cycle,
    patches: Seq<Patch>,
    k: nat,
    wired: bool,
) -> Outcome
    decreases k,
{
    if k == 0 || k > patches.len() {
        done(s)
    } else {
        let before = patches_applied(elements, texts, s, patches, (k - 1) as nat, wired);
        if before.error is Some {
            before
        } else {
            patch_applied(elements, texts, before.state, patches[k - 1], wired)
        }
    }
}

/// A failure in applying patches stays the outcome of the whole list.
pub proof fn lemma_patches_applied_fails(
    elements: Map<usize, usize>,
    texts: Map<usize, usize>,
    s: Cycle,
    patches: Seq<Patch>,
    k: nat,
    n: nat,
    wired: bool,
)
    requires
        k <= n <= patches.len(),
        patches_applied(elements, texts, s, patches, k, wired).error is Some,
    ensures
        patches_applied(elements, texts, s, patches, n, wired) == patches_applied(
            elements,
            texts,
            s,
            patches,
            k,
            wired,
        ),
    decreases n,
{
    if n > k {
        lemma_patches_applied_fails(elements, texts, s, patches, k, (n - 1) as nat, wired);
    }
}

/// The number of identifiers handed out grows with each patch.
pub proof fn lemma_patches_owners_monotonic(patches: Seq<Patch>, i: nat, j: nat)
    requires
        i <= j <= patches.len(),
    ensures
        patches_owners(patches, i) <= patches_owners(patches, j),
    decreases j,
{
    if i < j {
        lemma_patches_owners_monotonic(patches, i, (j - 1) as nat);
    }
}

/// The owners among the first `k` children are among those of all.
proof fn lemma_children_owners_step(children: Seq<Node>, k: nat)
    requires
        k <= children.len(),
    ensures
        children_owners(children, k) <= children_owners(children, children.len()),
    decreases children.len() - k,
{
    if k < children.len() {
        lemma_children_owners_step(children, k + 1);
    }
}

/// A child is found at its own position among the children of a node of a
/// well-formed tree: no child occurs twice.
pub proof fn lemma_child_found(t: LiveTreeView, node: usize, at: int)
    requires
        t.wf(),
        node < t.nodes.len(),
        0 <= at < t.nodes[node as int].children.len(),
    ensures
        child_position(t.nodes[node as int].children, t.nodes[node as int].children[at]) == at,
{
    let children = t.nodes[node as int].children;
    assert(t.node_ok(node as int));
    assert forall|k: int| 0 <= k < at implies !is_node(children[at])(#[trigger] children[k]) by {
        assert(children[k] != children[at]);
    }
    lemma_first_where(children, is_node(children[at]), at);
}

/// Counts the children of `node` that are no comments.
fn count_children(tree: &LiveTree, node: usize) -> (counted: usize)
    requires
        tree@.wf(),
        node < tree@.nodes.len(),
    ensures
        counted == counted_children(
            tree@,
            tree@.nodes[node as int].children,
            tree@.nodes[node as int].children.len(),
        ),
{
    let child_count = tree.child_count(node);
    let mut counted: usize = 0;
    let mut i: usize = 0;
    while i < child_count
        invariant
            i <= child_count,
            tree@.wf(),
            node < tree@.nodes.len(),
            child_count == tree@.nodes[node as int].children.len(),
            counted <= i,
            counted == counted_children(tree@, tree@.nodes[node as int].children, i as nat),
        decreases child_count - i,
    {
        let child = tree.child_at(node, i);
        proof {
            assert(tree@.node_ok(node as int));
        }
        match tree.kind(child) {
            NodeKind::Comment => {},
            _ => {
                counted = counted + 1;
            },
        }
        i = i + 1;
    }
    counted
}

/// Whether `result` reports what `outcome` came to.
pub open spec fn reports<T>(result: Result<T, Error>, outcome: Outcome) -> bool {
    match result {
        Ok(_) => outcome.error is None,
        Err(e) => outcome.error == Some(e),
    }
}

/// Applies `patch` to the element `node` and adds the callbacks of the
/// subtrees it builds to `created`.
fn apply_element_patch_into(
    wired: bool,
    tree: &mut LiveTree,
    node: usize,
    old_closures: &mut ActiveClosure,
    created: &mut ActiveClosure,
    patch: &Patch,
) -> (result: Result<(), Error>)
    requires
        old(tree)@.wf(),
        node < old(tree)@.nodes.len(),
        old(tree)@.nodes[node as int].kind == NodeKind::Element,
        wired ==> old(tree)@.next_vdom_id + patch_owners(*patch) <= u32::MAX,
    ensures
        follows(old(tree)@, final(tree)@),
        ({
            let outcome = element_patched(
                Cycle { tree: old(tree)@, registry: old(old_closures)@, created: old(created)@ },
                node,
                *patch,
                wired,
            );
            &&& outcome.state == (Cycle {
                tree: final(tree)@,
                registry: final(old_closures)@,
                created: final(created)@,
            })
            &&& reports(result, outcome)
        }),
        final(tree)@.next_vdom_id == old(tree)@.next_vdom_id + (if wired && result is Ok {
            patch_owners(*patch)
        } else {
            0
        }),
        result is Ok && accounted(old(tree)@, old(old_closures)@, old(created)@) ==> accounted(
            final(tree)@,
            final(old_closures)@,
            final(created)@,
        ),
        result is Ok && owned(old(tree)@, old(old_closures)@) ==> owned(
            final(tree)@,
            final(old_closures)@,
        ),
        result is Ok ==> survivors_keep(
            old(tree)@,
            final(tree)@,
            old(old_closures)@,
            final(old_closures)@,
        ),
{
    let ghost start = Cycle { tree: tree@, registry: old_closures@, created: created@ };
    match patch {
        Patch::AddAttributes(_tag, _node_idx, attributes) => {
            let mut k: usize = 0;
            while k < attributes.len()
                invariant
                    k <= attributes.len(),
                    follows(old(tree)@, tree@),
                    node < tree@.nodes.len(),
                    tree@.nodes[node as int].kind == NodeKind::Element,
                    tree@.next_vdom_id == old(tree)@.next_vdom_id,
                    tree@ == attributes_applied(old(tree)@, node, attributes@, k as nat),
                    same_shape(old(tree)@, tree@),
                decreases attributes.len() - k,
            {
                apply_attribute(tree, node, &attributes[k]);
                k = k + 1;
            }
            proof {
                if accounted(old(tree)@, old(old_closures)@, old(created)@) {
                    lemma_same_shape_accounted(old(tree)@, tree@, old_closures@, created@);
                }
                if owned(old(tree)@, old(old_closures)@) {
                    lemma_kept_owned(old(tree)@, tree@, old_closures@);
                }
                lemma_lives_kept_in_place(old(tree)@, tree@);
            }
            Ok(())
        },
        Patch::RemoveAttributes(_tag, _node_idx, attributes) => {
            let mut k: usize = 0;
            while k < attributes.len()
                invariant
                    k <= attributes.len(),
                    follows(old(tree)@, tree@),
                    node < tree@.nodes.len(),
                    tree@.nodes[node as int].kind == NodeKind::Element,
                    tree@.next_vdom_id == old(tree)@.next_vdom_id,
                    tree@ == attributes_removed(old(tree)@, node, attributes@, k as nat),
                    same_shape(old(tree)@, tree@),
                decreases attributes.len() - k,
            {
                tree.remove_attribute(node, attributes[k].as_str());
                k = k + 1;
            }
            proof {
                if accounted(old(tree)@, old(old_closures)@, old(created)@) {
                    lemma_same_shape_accounted(old(tree)@, tree@, old_closures@, created@);
                }
                if owned(old(tree)@, old(old_closures)@) {
                    lemma_kept_owned(old(tree)@, tree@, old_closures@);
                }
                lemma_lives_kept_in_place(old(tree)@, tree@);
            }
            Ok(())
        },
        Patch::Replace(_tag, _node_idx, new_node) => {
            match remove_event_listeners(tree, node, old_closures) {
                Err(e) => {
                    return Err(e);
                },
                Ok(_) => {},
            }
            let ghost told = tree@;
            let replacement = create_node(tree, created, new_node, wired);
            proof {
                assert(tree@.nodes[node as int] == told.nodes[node as int]);
                assert(told.node_ok(node as int));
            }
            tree.replace_with(node, replacement);
            proof {
                let ids = subtree_ids(old(tree)@, node as int);
                lemma_retained_is_retired(old(old_closures)@, ids, ids.len());
                if accounted(old(tree)@, old(old_closures)@, old(created)@) {
                    lemma_retired_accounted(
                        old(tree)@,
                        tree@,
                        node,
                        old(old_closures)@,
                        old(created)@,
                        created@,
                    );
                }
                if owned(old(tree)@, old(old_closures)@) {
                    lemma_retired_owned(old(tree)@, tree@, node, old(old_closures)@);
                }
                lemma_survivors_keep_retired(old(tree)@, tree@, node, old(old_closures)@);
            }
            Ok(())
        },
        Patch::TruncateChildren(_tag, _node_idx, num_children_remaining) => {
            let child_count = tree.child_count(node);
            if *num_children_remaining > child_count {
                return Err(Error::StructuralInconsistency);
            }
            let counted = count_children(tree, node);
            let to_be_remove_len = if *num_children_remaining >= counted {
                0
            } else {
                counted - *num_children_remaining
            };
            let mut at: usize = child_count;
            let mut budget: usize = to_be_remove_len;
            while at > 0 && budget > 0
                invariant
                    follows(old(tree)@, tree@),
                    node < tree@.nodes.len(),
                    at <= tree@.nodes[node as int].children.len(),
                    tree@.next_vdom_id == old(tree)@.next_vdom_id,
                    start == (Cycle {
                        tree: old(tree)@,
                        registry: old(old_closures)@,
                        created: old(created)@,
                    }),
                    patch matches Patch::TruncateChildren(_, _, r) && r == *num_children_remaining,
                    *num_children_remaining <= old(tree)@.nodes[node as int].children.len(),
                    accounted(old(tree)@, old(old_closures)@, old(created)@) ==> accounted(
                        tree@,
                        old_closures@,
                        created@,
                    ),
                    owned(old(tree)@, old(old_closures)@) ==> owned(tree@, old_closures@),
                    survivors_keep(old(tree)@, tree@, old(old_closures)@, old_closures@),
                    truncated(start, node, *num_children_remaining) == children_dropped(
                        Cycle { tree: tree@, registry: old_closures@, created: created@ },
                        node,
                        at as nat,
                        budget as nat,
                    ),
                decreases at,
            {
                let ghost before = Cycle {
                    tree: tree@,
                    registry: old_closures@,
                    created: created@,
                };
                let child = tree.child_at(node, at - 1);
                proof {
                    assert(tree@.node_ok(node as int));
                }
                match tree.kind(child) {
                    NodeKind::Comment => {},
                    _ => {
                        match remove_event_listeners(tree, child, old_closures) {
                            Err(e) => {
                                return Err(e);
                            },
                            Ok(_) => {},
                        }
                        proof {
                            let ids = subtree_ids(before.tree, child as int);
                            lemma_retained_is_retired(before.registry, ids, ids.len());
                        }
                        tree.remove_child(node, child);
                        proof {
                            lemma_child_found(before.tree, node, at - 1);
                            if accounted(before.tree, before.registry, created@) {
                                lemma_retired_accounted(
                                    before.tree,
                                    tree@,
                                    child,
                                    before.registry,
                                    created@,
                                    created@,
                                );
                            }
                            if owned(before.tree, before.registry) {
                                lemma_retired_owned(before.tree, tree@, child, before.registry);
                            }
                            lemma_survivors_keep_retired(
                                before.tree,
                                tree@,
                                child,
                                before.registry,
                            );
                            lemma_survivors_keep_on(
                                old(tree)@,
                                before.tree,
                                tree@,
                                old(old_closures)@,
                                before.registry,
                                old_closures@,
                            );
                        }
                        budget = budget - 1;
                    },
                }
                at = at - 1;
            }
            Ok(())
        },
        Patch::AppendChildren(_tag, _node_idx, new_nodes) => {
            let mut k: usize = 0;
            while k < new_nodes.len()
                invariant
                    k <= new_nodes.len(),
                    follows(old(tree)@, tree@),
                    node < old(tree)@.nodes.len(),
                    tree@.nodes[node as int].kind == NodeKind::Element,
                    tree@.root < old(tree)@.nodes.len(),
                    start.registry == old_closures@,
                    wired ==> old(tree)@.next_vdom_id + children_owners(
                        new_nodes@,
                        new_nodes@.len(),
                    ) <= u32::MAX,
                    tree@.next_vdom_id == old(tree)@.next_vdom_id + (if wired {
                        children_owners(new_nodes@, k as nat)
                    } else {
                        0
                    }),
                    children_appended(start, node, new_nodes@, k as nat, wired) == (Cycle {
                        tree: tree@,
                        registry: old_closures@,
                        created: created@,
                    }),
                    accounted(old(tree)@, old(old_closures)@, old(created)@) ==> accounted(
                        tree@,
                        old_closures@,
                        created@,
                    ),
                    owned(old(tree)@, old(old_closures)@) ==> owned(tree@, old_closures@),
                    lives_kept(old(tree)@, tree@),
                decreases new_nodes.len() - k,
            {
                proof {
                    lemma_children_owners_step(new_nodes@, (k + 1) as nat);
                }
                let ghost before = tree@;
                let ghost created_before = created@;
                let child = create_node(tree, created, &new_nodes[k], wired);
                proof {
                    assert(tree@.nodes[node as int] == before.nodes[node as int]);
                }
                tree.append_child(node, child);
                proof {
                    if accounted(before, old_closures@, created_before) {
                        lemma_grown_accounted(
                            before,
                            tree@,
                            old_closures@,
                            created_before,
                            created@,
                        );
                    }
                    if owned(before, old_closures@) {
                        lemma_kept_owned(before, tree@, old_closures@);
                    }
                    lemma_lives_kept_in_place(before, tree@);
                    lemma_survivors_keep_on(
                        old(tree)@,
                        before,
                        tree@,
                        old_closures@,
                        old_closures@,
                        old_closures@,
                    );
                }
                k = k + 1;
            }
            Ok(())
        },
        Patch::ChangeText(_node_idx, _new_node) => Err(Error::StructuralInconsistency),
    }
}

/// Applies `patch` to the text node `node` and adds the callbacks of the
/// subtree it builds to `created`. No registry is touched, so the outcome
/// holds whatever the registry is.
fn apply_text_patch_into(
    wired: bool,
    tree: &mut LiveTree,
    node: usize,
    created: &mut ActiveClosure,
    patch: &Patch,
) -> (result: Result<(), Error>)
    requires
        old(tree)@.wf(),
        node < old(tree)@.nodes.len(),
        old(tree)@.nodes[node as int].kind == NodeKind::Text,
        wired ==> old(tree)@.next_vdom_id + patch_owners(*patch) <= u32::MAX,
    ensures
        follows(old(tree)@, final(tree)@),
        forall|registry: Map<u32, Seq<(Seq<char>, Callback)>>|
            (#[trigger] text_patched(
                Cycle { tree: old(tree)@, registry, created: old(created)@ },
                node,
                *patch,
                wired,
            )).state == (Cycle { tree: final(tree)@, registry, created: final(created)@ })
                && reports(
                result,
                text_patched(
                    Cycle { tree: old(tree)@, registry, created: old(created)@ },
                    node,
                    *patch,
                    wired,
                ),
            ),
        final(tree)@.next_vdom_id == old(tree)@.next_vdom_id + (if wired && result is Ok {
            patch_owners(*patch)
        } else {
            0
        }),
        forall|registry: Map<u32, Seq<(Seq<char>, Callback)>>|
            result is Ok && accounted(old(tree)@, registry, old(created)@) ==> #[trigger] accounted(
                final(tree)@,
                registry,
                final(created)@,
            ),
        forall|registry: Map<u32, Seq<(Seq<char>, Callback)>>|
            result is Ok && owned(old(tree)@, registry) ==> #[trigger] owned(final(tree)@, registry),
        result is Ok ==> lives_kept(old(tree)@, final(tree)@),
{
    match patch {
        Patch::ChangeText(_node_idx, new_text) => {
            tree.set_text(node, new_text.as_str());
            proof {
                assert forall|registry: Map<u32, Seq<(Seq<char>, Callback)>>|
                    accounted(old(tree)@, registry, old(created)@) implies #[trigger] accounted(
                    tree@,
                    registry,
                    created@,
                ) by {
                    lemma_same_shape_accounted(old(tree)@, tree@, registry, created@);
                }
                assert forall|registry: Map<u32, Seq<(Seq<char>, Callback)>>|
                    owned(old(tree)@, registry) implies #[trigger] owned(tree@, registry) by {
                    lemma_kept_owned(old(tree)@, tree@, registry);
                }
                lemma_lives_kept_in_place(old(tree)@, tree@);
            }
            Ok(())
        },
        Patch::Replace(_tag, _node_idx, new_node) => {
            let ghost before = tree@;
            let replacement = create_node(tree, created, new_node, wired);
            proof {
                assert(tree@.nodes[node as int] == before.nodes[node as int]);
                assert(before.node_ok(node as int));
            }
            tree.replace_with(node, replacement);
            proof {
                assert forall|registry: Map<u32, Seq<(Seq<char>, Callback)>>|
                    accounted(old(tree)@, registry, old(created)@) implies #[trigger] accounted(
                    tree@,
                    registry,
                    created@,
                ) by {
                    lemma_detached_accounted(
                        old(tree)@,
                        tree@,
                        node,
                        registry,
                        registry,
                        old(created)@,
                        created@,
                    );
                }
                assert(old(tree)@.node_ok(node as int));
                lemma_no_ids_without_children(old(tree)@, node as int);
                assert forall|registry: Map<u32, Seq<(Seq<char>, Callback)>>|
                    owned(old(tree)@, registry) implies #[trigger] owned(tree@, registry) by {
                    lemma_retired_owned(old(tree)@, tree@, node, registry);
                }
                lemma_lives_kept_detached(old(tree)@, tree@, node);
            }
            Ok(())
        },
        _other => Err(Error::StructuralInconsistency),
    }
}

/// Applies `patch` to the element `node` and returns the callbacks of the
/// subtrees that it built. Callbacks are wired where a program is given.
///
/// Fails with `StructuralInconsistency` where `node` is no element or the
/// patch cannot be applied to an element, and with `RegistryInconsistency`
/// where a callback to retire has no entry in `old_closures`. A patch that
/// fails leaves the tree and the registry as far as it came.
pub fn apply_element_patch<DSP>(
    program: Option<&DSP>,
    tree: &mut LiveTree,
    node: usize,
    old_closures: &mut ActiveClosure,
    patch: &Patch,
) -> (result: Result<ActiveClosure, Error>)
    requires
        old(tree)@.wf(),
        node < old(tree)@.nodes.len(),
        program is Some ==> old(tree)@.next_vdom_id + patch_owners(*patch) <= u32::MAX,
    ensures
        follows(old(tree)@, final(tree)@),
        ({
            let start = Cycle {
                tree: old(tree)@,
                registry: old(old_closures)@,
                created: Map::empty(),
            };
            let outcome = if old(tree)@.nodes[node as int].kind == NodeKind::Element {
                element_patched(start, node, *patch, program is Some)
            } else {
                failed(start, Error::StructuralInconsistency)
            };
            &&& outcome.state.tree == final(tree)@
            &&& outcome.state.registry == final(old_closures)@
            &&& match result {
                Ok(active_closures) => outcome.error is None && outcome.state.created
                    == active_closures@,
                Err(e) => outcome.error == Some(e),
            }
        }),
        match result {
            Ok(active_closures) => accounted(old(tree)@, old(old_closures)@, Map::empty())
                ==> accounted(final(tree)@, final(old_closures)@, active_closures@),
            Err(_) => true,
        },
        result is Ok && owned(old(tree)@, old(old_closures)@) ==> owned(
            final(tree)@,
            final(old_closures)@,
        ),
        result is Ok ==> survivors_keep(
            old(tree)@,
            final(tree)@,
            old(old_closures)@,
            final(old_closures)@,
        ),
{
    match tree.kind(node) {
        NodeKind::Element => {},
        _ => {
            return Err(Error::StructuralInconsistency);
        },
    }
    let mut active_closures = ActiveClosure::new();
    match apply_element_patch_into(
        program.is_some(),
        tree,
        node,
        old_closures,
        &mut active_closures,
        patch,
    ) {
        Ok(_) => Ok(active_closures),
        Err(e) => Err(e),
    }
}

/// Applies `patch` to the text node `node` and returns the callbacks of the
/// subtree that it built. Callbacks are wired where a program is given.
///
/// Fails with `StructuralInconsistency`, and changes nothing, where `node`
/// is no text node or the patch is neither a change of text nor a
/// replacement.
pub fn apply_text_patch<DSP>(
    program: Option<&DSP>,
    tree: &mut LiveTree,
    node: usize,
    patch: &Patch,
) -> (result: Result<ActiveClosure, Error>)
    requires
        old(tree)@.wf(),
        node < old(tree)@.nodes.len(),
        program is Some ==> old(tree)@.next_vdom_id + patch_owners(*patch) <= u32::MAX,
    ensures
        follows(old(tree)@, final(tree)@),
        ({
            let start = Cycle { tree: old(tree)@, registry: Map::empty(), created: Map::empty() };
            let outcome = if old(tree)@.nodes[node as int].kind == NodeKind::Text {
                text_patched(start, node, *patch, program is Some)
            } else {
                failed(start, Error::StructuralInconsistency)
            };
            &&& outcome.state.tree == final(tree)@
            &&& match result {
                Ok(active_closures) => outcome.error is None && outcome.state.created
                    == active_closures@,
                Err(e) => outcome.error == Some(e),
            }
        }),
        forall|registry: Map<u32, Seq<(Seq<char>, Callback)>>|
            result is Ok && accounted(old(tree)@, registry, Map::empty()) ==> #[trigger] accounted(
                final(tree)@,
                registry,
                result->Ok_0@,
            ),
        forall|registry: Map<u32, Seq<(Seq<char>, Callback)>>|
            result is Ok && owned(old(tree)@, registry) ==> #[trigger] owned(final(tree)@, registry),
        result is Ok ==> lives_kept(old(tree)@, final(tree)@),
{
    match tree.kind(node) {
        NodeKind::Text => {},
        _ => {
            return Err(Error::StructuralInconsistency);
        },
    }
    let mut active_closures = ActiveClosure::new();
    let ghost start = Cycle { tree: tree@, registry: Map::empty(), created: Map::empty() };
    let outcome = apply_text_patch_into(program.is_some(), tree, node, &mut active_closures, patch);
    proof {
        assert(text_patched(start, node, *patch, program is Some).state.tree == tree@);
    }
    match outcome {
        Ok(_) => Ok(active_closures),
        Err(e) => Err(e),
    }
}

/// The outcome of a whole cycle: every patch applied in order to the node
/// that the numbering of the tree, as it is before the first patch, gives
/// for its target.
pub open spec fn cycle_outcome(
    tree: LiveTreeView,
    registry: Map<u32, Seq<(Seq<char>, Callback)>>,
    patches: Seq<Patch>,
    wired: bool,
) -> Outcome {
    patches_applied(
        located(tree, numbering(tree), targets(patches), NodeKind::Element),
        located(tree, numbering(tree), targets(patches), NodeKind::Text),
        Cycle { tree, registry, created: Map::empty() },
        patches,
        patches.len(),
        wired,
    )
}

/// Applies `patches` to the live tree in order and returns the callbacks
/// that were registered for the subtrees built on the way. The nodes are
/// located once, before the first patch changes anything. Callbacks are
/// wired where a program is given; without one the new subtrees get none.
///
/// The first patch that cannot be applied ends the cycle with its error:
/// `StructuralInconsistency` where its target was not located or is of the
/// wrong kind for it, `RegistryInconsistency` where a callback to retire has
/// no entry in `old_closures`. The tree and the registry are then left as
/// far as the cycle came: nothing is rolled back.
pub fn patch<DSP>(
    program: Option<&DSP>,
    tree: &mut LiveTree,
    old_closures: &mut ActiveClosure,
    patches: &[Patch],
) -> (result: Result<ActiveClosure, Error>)
    requires
        old(tree)@.wf(),
        program is Some ==> old(tree)@.next_vdom_id + patches_owners(patches@, patches@.len())
            <= u32::MAX,
    ensures
        follows(old(tree)@, final(tree)@),
        ({
            let outcome = cycle_outcome(
                old(tree)@,
                old(old_closures)@,
                patches@,
                program is Some,
            );
            &&& outcome.state.tree == final(tree)@
            &&& outcome.state.registry == final(old_closures)@
            &&& match result {
                Ok(active_closures) => outcome.error is None && outcome.state.created
                    == active_closures@,
                Err(e) => outcome.error == Some(e),
            }
        }),
        match result {
            Ok(active_closures) => accounted(old(tree)@, old(old_closures)@, Map::empty())
                ==> accounted(final(tree)@, final(old_closures)@, active_closures@),
            Err(_) => true,
        },
        result is Ok && owned(old(tree)@, old(old_closures)@) ==> owned(
            final(tree)@,
            final(old_closures)@,
        ),
        result is Ok ==> survivors_keep(
            old(tree)@,
            final(tree)@,
            old(old_closures)@,
            final(old_closures)@,
        ),
{
    broadcast use vstd::std_specs::hash::group_hash_axioms;

    let wired = program.is_some();
    let mut active_closures = ActiveClosure::new();
    let (element_nodes_to_patch, text_nodes_to_patch) = find_nodes(tree, patches);
    let ghost elements = element_nodes_to_patch@;
    let ghost texts = text_nodes_to_patch@;
    let ghost start = Cycle { tree: tree@, registry: old_closures@, created: active_closures@ };
    proof {
        lemma_subtree_order_valid(tree@, tree@.root as int);
    }
    let mut k: usize = 0;
    while k < patches.len()
        invariant
            k <= patches.len(),
            wired == (program is Some),
            follows(old(tree)@, tree@),
            elements == element_nodes_to_patch@,
            texts == text_nodes_to_patch@,
            elements == located(
                old(tree)@,
                numbering(old(tree)@),
                targets(patches@),
                NodeKind::Element,
            ),
            texts == located(old(tree)@, numbering(old(tree)@), targets(patches@), NodeKind::Text),
            forall|i: int|
                0 <= i < numbering(old(tree)@).len() ==> (#[trigger] numbering(old(tree)@)[i])
                    < old(tree)@.nodes.len(),
            start == (Cycle {
                tree: old(tree)@,
                registry: old(old_closures)@,
                created: Map::empty(),
            }),
            wired ==> old(tree)@.next_vdom_id + patches_owners(patches@, patches@.len())
                <= u32::MAX,
            tree@.next_vdom_id == old(tree)@.next_vdom_id + (if wired {
                patches_owners(patches@, k as nat)
            } else {
                0
            }),
            patches_applied(elements, texts, start, patches@, k as nat, wired) == done(
                Cycle { tree: tree@, registry: old_closures@, created: active_closures@ },
            ),
            accounted(old(tree)@, old(old_closures)@, Map::empty()) ==> accounted(
                tree@,
                old_closures@,
                active_closures@,
            ),
            owned(old(tree)@, old(old_closures)@) ==> owned(tree@, old_closures@),
            survivors_keep(old(tree)@, tree@, old(old_closures)@, old_closures@),
        decreases patches.len() - k,
    {
        let patch = &patches[k];
        let patch_node_idx = patch.node_idx();
        proof {
            lemma_patches_owners_monotonic(patches@, (k + 1) as nat, patches@.len());
        }
        let ghost reached = Cycle {
            tree: tree@,
            registry: old_closures@,
            created: active_closures@,
        };
        let outcome = match element_nodes_to_patch.get(&patch_node_idx) {
            Some(element) => {
                proof {
                    assert(numbering(old(tree)@)[patch_node_idx as int] == *element);
                }
                apply_element_patch_into(
                    wired,
                    tree,
                    *element,
                    old_closures,
                    &mut active_closures,
                    patch,
                )
            },
            None => match text_nodes_to_patch.get(&patch_node_idx) {
                Some(text_node) => {
                    proof {
                        assert(numbering(old(tree)@)[patch_node_idx as int] == *text_node);
                    }
                    let ghost before = Cycle {
                        tree: tree@,
                        registry: old_closures@,
                        created: active_closures@,
                    };
                    let applied = apply_text_patch_into(
                        wired,
                        tree,
                        *text_node,
                        &mut active_closures,
                        patch,
                    );
                    proof {
                        assert(text_patched(before, *text_node, *patch, wired).state.tree == tree@);
                    }
                    applied
                },
                None => Err(Error::StructuralInconsistency),
            },
        };
        match outcome {
            Ok(_) => {
                proof {
                    lemma_survivors_keep_on(
                        old(tree)@,
                        reached.tree,
                        tree@,
                        old(old_closures)@,
                        reached.registry,
                        old_closures@,
                    );
                }
            },
            Err(e) => {
                proof {
                    assert(patches_applied(elements, texts, start, patches@, (k + 1) as nat, wired)
                        == failed(
                        Cycle { tree: tree@, registry: old_closures@, created: active_closures@ },
                        e,
                    ));
                    lemma_patches_applied_fails(
                        elements,
                        texts,
                        start,
                        patches@,
                        (k + 1) as nat,
                        patches@.len(),
                        wired,
                    );
                }
                return Err(e);
            },
        }
        k = k + 1;
    }
    Ok(active_closures)
}

/// Truncating to a count that the element does not exceed changes
/// nothing, not the tree, not the journal, not the registry: be it the
/// number of all its children or that of its children besides comments.
pub proof fn lemma_truncate_to_current(s: Cycle, node: usize, patch: Patch, wired: bool)
    requires
        patch matches Patch::TruncateChildren(_, _, remaining) && counted_children(
            s.tree,
            s.tree.nodes[node as int].children,
            s.tree.nodes[node as int].children.len(),
        ) <= remaining <= s.tree.nodes[node as int].children.len(),
    ensures
        element_patched(s, node, patch, wired) == done(s),
{
}

/// The first `at` of `children` as a walk with `budget` leaves them: from
/// the last to the first, comments stay and other children go until the
/// budget is spent.
pub open spec fn kept_children(t: LiveTreeView, children: Seq<usize>, at: nat, budget: nat) -> Seq<
    usize,
>
    decreases at,
{
    if at == 0 || budget == 0 || at > children.len() {
        children.take(at as int)
    } else if t.nodes[children[at - 1] as int].kind == NodeKind::Comment {
        kept_children(t, children, (at - 1) as nat, budget).push(children[at - 1])
    } else {
        kept_children(t, children, (at - 1) as nat, (budget - 1) as nat)
    }
}

/// The comments among the first `k` of `children`, in order.
pub open spec fn comments_among(t: LiveTreeView, children: Seq<usize>, k: nat) -> Seq<usize>
    decreases k,
{
    if k == 0 || k > children.len() {
        Seq::empty()
    } else if t.nodes[children[k - 1] as int].kind == NodeKind::Comment {
        comments_among(t, children, (k - 1) as nat).push(children[k - 1])
    } else {
        comments_among(t, children, (k - 1) as nat)
    }
}

/// What a walk keeps depends on the children that it passes and on their
/// kinds alone.
pub proof fn lemma_kept_children_same(
    t: LiveTreeView,
    u: LiveTreeView,
    a: Seq<usize>,
    b: Seq<usize>,
    at: nat,
    budget: nat,
)
    requires
        at <= a.len(),
        at <= b.len(),
        forall|i: int|
            0 <= i < at ==> a[i] == b[i] && t.nodes[a[i] as int].kind == u.nodes[b[i] as int].kind,
    ensures
        kept_children(t, a, at, budget) == kept_children(u, b, at, budget),
        counted_children(t, a, at) == counted_children(u, b, at),
    decreases at,
{
    if at > 0 {
        lemma_kept_children_same(t, u, a, b, (at - 1) as nat, budget);
        if budget > 0 {
            lemma_kept_children_same(t, u, a, b, (at - 1) as nat, (budget - 1) as nat);
        }
    }
    assert(a.take(at as int) =~= b.take(at as int));
}

/// A walk that can drop every child that is no comment keeps the
/// comments, and nothing else.
pub proof fn lemma_kept_is_comments(t: LiveTreeView, children: Seq<usize>, at: nat, budget: nat)
    requires
        at <= children.len(),
        budget >= counted_children(t, children, at),
    ensures
        kept_children(t, children, at, budget) == comments_among(t, children, at),
        forall|i: int|
            0 <= i < comments_among(t, children, at).len() ==> t.nodes[(#[trigger] comments_among(
                t,
                children,
                at,
            )[i]) as int].kind == NodeKind::Comment,
    decreases at,
{
    if at > 0 {
        if t.nodes[children[at - 1] as int].kind == NodeKind::Comment {
            lemma_kept_is_comments(t, children, (at - 1) as nat, budget);
        } else {
            lemma_kept_is_comments(t, children, (at - 1) as nat, (budget - 1) as nat);
        }
        if budget == 0 {
            assert(kept_children(t, children, at, budget) =~= comments_among(t, children, at));
        }
    } else {
        assert(children.take(0) =~= Seq::<usize>::empty());
    }
}

/// While children are dropped, the tree stays well formed, no node is
/// created or changes its kind, and the element is left with what the walk
/// keeps of the children that it passed, followed by those that it did not
/// reach.
pub proof fn lemma_children_dropped_kept(s: Cycle, node: usize, at: nat, budget: nat)
    requires
        s.tree.wf(),
        node < s.tree.nodes.len(),
        at <= s.tree.nodes[node as int].children.len(),
        children_dropped(s, node, at, budget).error is None,
    ensures
        ({
            let after = children_dropped(s, node, at, budget).state.tree;
            let children = s.tree.nodes[node as int].children;
            &&& after.wf()
            &&& after.nodes.len() == s.tree.nodes.len()
            &&& forall|n: int|
                0 <= n < after.nodes.len() ==> (#[trigger] after.nodes[n]).kind
                    == s.tree.nodes[n].kind
            &&& after.nodes[node as int].children == kept_children(s.tree, children, at, budget)
                + children.skip(at as int)
        }),
    decreases at,
{
    let children = s.tree.nodes[node as int].children;
    if at == 0 || budget == 0 {
        assert(children.take(at as int) + children.skip(at as int) =~= children);
    } else {
        let child = children[at - 1];
        assert(s.tree.node_ok(node as int));
        if s.tree.nodes[child as int].kind == NodeKind::Comment {
            lemma_children_dropped_kept(s, node, (at - 1) as nat, budget);
            assert(kept_children(s.tree, children, (at - 1) as nat, budget).push(child)
                + children.skip(at as int) =~= kept_children(
                s.tree,
                children,
                (at - 1) as nat,
                budget,
            ) + children.skip(at - 1));
        } else {
            let told = callbacks_retired(s, child);
            let ids = subtree_ids(s.tree, child as int);
            lemma_journaled_wf(s.tree, retire_ops(s.registry, child, ids, ids.len()));
            assert(told.tree.nodes == s.tree.nodes);
            lemma_child_found(told.tree, node, at - 1);
            lemma_remove_child_wf(told.tree, node, child);
            let next = Cycle { tree: told.tree.remove_child(node, child), ..told };
            let left = next.tree.nodes[node as int].children;
            assert(left == children.remove(at - 1));
            lemma_children_dropped_kept(next, node, (at - 1) as nat, (budget - 1) as nat);
            lemma_kept_children_same(
                next.tree,
                s.tree,
                left,
                children,
                (at - 1) as nat,
                (budget - 1) as nat,
            );
            assert(left.skip(at - 1) =~= children.skip(at as int));
        }
    }
}

/// Truncating to no children leaves the element with its comments, in
/// their order, and with nothing else, where the patch succeeds.
pub proof fn lemma_truncate_to_nothing(s: Cycle, node: usize, patch: Patch, wired: bool)
    requires
        s.tree.wf(),
        node < s.tree.nodes.len(),
        patch matches Patch::TruncateChildren(_, _, remaining) && remaining == 0,
        element_patched(s, node, patch, wired).error is None,
    ensures
        ({
            let after = element_patched(s, node, patch, wired).state.tree;
            let children = s.tree.nodes[node as int].children;
            &&& after.nodes[node as int].children == comments_among(
                s.tree,
                children,
                children.len(),
            )
            &&& forall|i: int|
                0 <= i < after.nodes[node as int].children.len() ==> after.nodes[(
                #[trigger] after.nodes[node as int].children[i]) as int].kind == NodeKind::Comment
        }),
{
    let children = s.tree.nodes[node as int].children;
    let budget = excess(s.tree, node, 0);
    lemma_children_dropped_kept(s, node, children.len(), budget);
    lemma_kept_is_comments(s.tree, children, children.len(), budget);
    let after = element_patched(s, node, patch, wired).state.tree;
    assert(children.skip(children.len() as int) =~= Seq::<usize>::empty());
    assert(after.nodes[node as int].children =~= comments_among(s.tree, children, children.len()));
    assert forall|i: int| 0 <= i < after.nodes[node as int].children.len() implies after.nodes[(
    #[trigger] after.nodes[node as int].children[i]) as int].kind == NodeKind::Comment by {
        let c = comments_among(s.tree, children, children.len())[i];
        assert(s.tree.nodes[c as int].kind == NodeKind::Comment);
        assert(after.wf());
        assert(after.node_ok(node as int));
    }
}

/// Whether `after` holds entries of `before` only.
pub open spec fn only_entries_of(
    before: Map<u32, Seq<(Seq<char>, Callback)>>,
    after: Map<u32, Seq<(Seq<char>, Callback)>>,
) -> bool {
    forall|id: u32| #[trigger] after.contains_key(id) ==> before.contains_key(id)
}

/// Retiring adds no entry to the registry, whether it succeeds or not.
pub proof fn lemma_callbacks_retired_registry(s: Cycle, node: usize)
    ensures
        only_entries_of(s.registry, callbacks_retired(s, node).registry),
{
    let ids = subtree_ids(s.tree, node as int);
    lemma_retained_entries(s.registry, ids, ids.len());
}

/// What retiring leaves holds entries of the registry only.
pub proof fn lemma_retained_entries(
    registry: Map<u32, Seq<(Seq<char>, Callback)>>,
    ids: Seq<u32>,
    k: nat,
)
    requires
        k <= ids.len(),
    ensures
        only_entries_of(registry, retained(registry, ids, k)),
    decreases k,
{
    if k > 0 {
        lemma_retained_entries(registry, ids, (k - 1) as nat);
        if retired(registry, ids, k) is Some {
            lemma_retired_entries(registry, ids, k);
        }
    }
}

/// After an element was replaced, no identifier that it or an element
/// below it carried has an entry in the registry, and every other entry is
/// still there.
pub proof fn lemma_replaced_ids_absent(s: Cycle, node: usize, new_node: Node, wired: bool)
    requires
        element_replaced(s, node, new_node, wired).error is None,
    ensures
        forall|i: int|
            0 <= i < subtree_ids(s.tree, node as int).len() ==> !element_replaced(
                s,
                node,
                new_node,
                wired,
            ).state.registry.contains_key(#[trigger] subtree_ids(s.tree, node as int)[i]),
        forall|id: u32|
            s.registry.contains_key(id) && !subtree_ids(s.tree, node as int).contains(id)
                ==> #[trigger] element_replaced(s, node, new_node, wired).state.registry.contains_key(
                id,
            ),
{
    let ids = subtree_ids(s.tree, node as int);
    lemma_retired_ids_absent(s.tree, s.registry, node);
    lemma_retained_is_retired(s.registry, ids, ids.len());
    lemma_retired_entries(s.registry, ids, ids.len());
    assert(ids.take(ids.len() as int) =~= ids);
}

/// Dropping children adds no entry to the registry, however the walk
/// ends.
pub proof fn lemma_children_dropped_registry(s: Cycle, node: usize, at: nat, budget: nat)
    ensures
        only_entries_of(s.registry, children_dropped(s, node, at, budget).state.registry),
    decreases at,
{
    if at > 0 && budget > 0 {
        let child = s.tree.nodes[node as int].children[at - 1];
        if s.tree.nodes[child as int].kind == NodeKind::Comment {
            lemma_children_dropped_registry(s, node, (at - 1) as nat, budget);
        } else {
            lemma_callbacks_retired_registry(s, child);
            if can_retire(s, child) {
                let told = callbacks_retired(s, child);
                lemma_children_dropped_registry(
                    Cycle { tree: told.tree.remove_child(node, child), ..told },
                    node,
                    (at - 1) as nat,
                    (budget - 1) as nat,
                );
            }
        }
    }
}

/// After children were dropped from an element, no identifier that a
/// dropped child or an element below it carried has an entry in the
/// registry. The child at position `p` is dropped where it is no comment and
/// fewer than `budget` of the children that the walk passes before it are
/// none either.
pub proof fn lemma_dropped_ids_absent(s: Cycle, node: usize, at: nat, budget: nat, p: int)
    requires
        s.tree.wf(),
        node < s.tree.nodes.len(),
        at <= s.tree.nodes[node as int].children.len(),
        0 <= p < at,
        s.tree.nodes[s.tree.nodes[node as int].children[p] as int].kind != NodeKind::Comment,
        counted_children(s.tree, s.tree.nodes[node as int].children, at) - counted_children(
            s.tree,
            s.tree.nodes[node as int].children,
            (p + 1) as nat,
        ) < budget,
        children_dropped(s, node, at, budget).error is None,
    ensures
        forall|i: int|
            0 <= i < subtree_ids(
                s.tree,
                s.tree.nodes[node as int].children[p] as int,
            ).len() ==> !children_dropped(s, node, at, budget).state.registry.contains_key(
                #[trigger] subtree_ids(s.tree, s.tree.nodes[node as int].children[p] as int)[i],
            ),
    decreases at,
{
    let children = s.tree.nodes[node as int].children;
    let child = children[at - 1];
    let gone = children[p];
    assert(s.tree.node_ok(node as int));
    if at - 1 > p {
        lemma_counted_grows(s.tree, children, (p + 1) as nat, (at - 1) as nat);
    }
    if s.tree.nodes[child as int].kind == NodeKind::Comment {
        lemma_dropped_ids_absent(s, node, (at - 1) as nat, budget, p);
    } else {
        let told = callbacks_retired(s, child);
        let ids = subtree_ids(s.tree, child as int);
        let next = Cycle { tree: told.tree.remove_child(node, child), ..told };
        if at - 1 == p {
            lemma_retired_ids_absent(s.tree, s.registry, child);
            lemma_retained_is_retired(s.registry, ids, ids.len());
            lemma_children_dropped_registry(next, node, (at - 1) as nat, (budget - 1) as nat);
        } else {
            lemma_journaled_wf(s.tree, retire_ops(s.registry, child, ids, ids.len()));
            assert(told.tree.nodes == s.tree.nodes);
            lemma_child_found(told.tree, node, at - 1);
            lemma_remove_child_wf(told.tree, node, child);
            let left = next.tree.nodes[node as int].children;
            assert(left == children.remove(at - 1));
            lemma_kept_children_same(next.tree, s.tree, left, children, (at - 1) as nat, 0);
            lemma_kept_children_same(next.tree, s.tree, left, children, (p + 1) as nat, 0);
            lemma_dropped_ids_absent(next, node, (at - 1) as nat, (budget - 1) as nat, p);
            lemma_subtree_ids_same(s.tree, next.tree, gone as int);
        }
    }
}

/// The count of children that are no comments grows with the children
/// counted.
pub proof fn lemma_counted_grows(t: LiveTreeView, children: Seq<usize>, i: nat, j: nat)
    requires
        i <= j <= children.len(),
    ensures
        counted_children(t, children, i) <= counted_children(t, children, j),
    decreases j,
{
    if i < j {
        lemma_counted_grows(t, children, i, (j - 1) as nat);
    }
}

/// Appending children leaves the registry as it is.
pub proof fn lemma_children_appended_registry(s: Cycle, node: usize, nodes: Seq<Node>, k: nat, wired: bool)
    ensures
        children_appended(s, node, nodes, k, wired).registry == s.registry,
    decreases k,
{
    if k > 0 && k <= nodes.len() {
        lemma_children_appended_registry(s, node, nodes, (k - 1) as nat, wired);
    }
}

/// No patch adds an entry to the registry that the cycle started with:
/// what was retired stays retired until the cycle ends, however it ends.
pub proof fn lemma_cycle_registry(
    elements: Map<usize, usize>,
    texts: Map<usize, usize>,
    s: Cycle,
    patches: Seq<Patch>,
    k: nat,
    wired: bool,
)
    requires
        k <= patches.len(),
    ensures
        only_entries_of(
            s.registry,
            patches_applied(elements, texts, s, patches, k, wired).state.registry,
        ),
    decreases k,
{
    if k > 0 {
        lemma_cycle_registry(elements, texts, s, patches, (k - 1) as nat, wired);
        let reached = patches_applied(elements, texts, s, patches, (k - 1) as nat, wired);
        let before = reached.state;
        let patch = patches[k - 1];
        if reached.error is None && elements.contains_key(patch.target()) {
            let node = elements[patch.target()];
            match patch {
                Patch::Replace(_, _, new_node) => {
                    lemma_callbacks_retired_registry(before, node);
                },
                Patch::TruncateChildren(_, _, remaining) => {
                    lemma_children_dropped_registry(
                        before,
                        node,
                        before.tree.nodes[node as int].children.len(),
                        excess(before.tree, node, remaining),
                    );
                },
                Patch::AppendChildren(_, _, nodes) => {
                    lemma_children_appended_registry(before, node, nodes@, nodes@.len(), wired);
                },
                _ => {},
            }
        }
    }
}

/// Counts the identifiers that applying `patch` hands out where callbacks
/// are wired; none where the count does not fit.
fn count_patch_owners(patch: &Patch) -> (count: Option<u64>)
    ensures
        match count {
            Some(c) => c == patch_owners(*patch),
            None => patch_owners(*patch) > u64::MAX,
        },
{
    match patch {
        Patch::Replace(_, _, new_node) => count_owners(new_node),
        Patch::AppendChildren(_, _, new_nodes) => {
            let mut total: u64 = 0;
            let mut i: usize = 0;
            while i < new_nodes.len()
                invariant
                    i <= new_nodes.len(),
                    patch matches Patch::AppendChildren(_, _, nodes) && nodes@ == new_nodes@,
                    total == children_owners(new_nodes@, i as nat),
                decreases new_nodes.len() - i,
            {
                proof {
                    lemma_children_owners_step(new_nodes@, (i + 1) as nat);
                }
                let sum = match count_owners(&new_nodes[i]) {
                    Some(c) => total.checked_add(c),
                    None => None,
                };
                match sum {
                    Some(s) => {
                        total = s;
                    },
                    None => {
                        return None;
                    },
                }
                i = i + 1;
            }
            Some(total)
        },
        _ => Some(0),
    }
}

/// Whether the tree has identifiers left for all the elements with
/// callbacks that `patches` build: what `patch` asks for where callbacks
/// are wired.
pub fn has_headroom(tree: &LiveTree, patches: &[Patch]) -> (enough: bool)
    ensures
        enough == (tree@.next_vdom_id + patches_owners(patches@, patches@.len()) <= u32::MAX),
{
    let mut total: u64 = tree.next_vdom_id() as u64;
    let mut k: usize = 0;
    while k < patches.len()
        invariant
            k <= patches.len(),
            total == tree@.next_vdom_id + patches_owners(patches@, k as nat),
            total <= u32::MAX,
        decreases patches.len() - k,
    {
        proof {
            lemma_patches_owners_monotonic(patches@, (k + 1) as nat, patches@.len());
        }
        let sum = match count_patch_owners(&patches[k]) {
            Some(c) => total.checked_add(c),
            None => None,
        };
        match sum {
            Some(s) => {
                if s > 0xffff_ffff {
                    return false;
                }
                total = s;
            },
            None => {
                return false;
            },
        }
        k = k + 1;
    }
    true
}

/// Replacing an element succeeds where every identifier that is carried at
/// or below it has its entry in the registry.
pub proof fn lemma_replace_succeeds(s: Cycle, node: usize, new_node: Node, wired: bool)
    requires
        s.tree.wf(),
        node < s.tree.nodes.len(),
        forall|id: u32| #[trigger] carried_under(s.tree, node, id) ==> s.registry.contains_key(id),
    ensures
        element_replaced(s, node, new_node, wired).error is None,
{
    lemma_can_be_retired(s.tree, s.registry, node, subtree_ids(s.tree, node as int).len());
}

/// Dropping children succeeds where every identifier that is carried at or
/// below one of the children that the walk passes has its entry in the
/// registry.
pub proof fn lemma_children_dropped_succeeds(s: Cycle, node: usize, at: nat, budget: nat)
    requires
        s.tree.wf(),
        node < s.tree.nodes.len(),
        at <= s.tree.nodes[node as int].children.len(),
        forall|p: int, id: u32|
            0 <= p < at && #[trigger] carried_under(
                s.tree,
                s.tree.nodes[node as int].children[p],
                id,
            ) ==> s.registry.contains_key(id),
    ensures
        children_dropped(s, node, at, budget).error is None,
    decreases at,
{
    if at > 0 && budget > 0 {
        let children = s.tree.nodes[node as int].children;
        let child = children[at - 1];
        assert(s.tree.node_ok(node as int));
        if s.tree.nodes[child as int].kind == NodeKind::Comment {
            lemma_children_dropped_succeeds(s, node, (at - 1) as nat, budget);
        } else {
            let ids = subtree_ids(s.tree, child as int);
            assert forall|id: u32| #[trigger]
                carried_under(s.tree, child, id) implies s.registry.contains_key(id) by {
                assert(carried_under(s.tree, children[at - 1], id));
            }
            lemma_can_be_retired(s.tree, s.registry, child, ids.len());
            lemma_retained_is_retired(s.registry, ids, ids.len());
            let told = callbacks_retired(s, child);
            lemma_journaled_wf(s.tree, retire_ops(s.registry, child, ids, ids.len()));
            assert(told.tree.nodes == s.tree.nodes);
            lemma_child_found(told.tree, node, at - 1);
            lemma_remove_child_wf(told.tree, node, child);
            let next = Cycle { tree: told.tree.remove_child(node, child), ..told };
            let left = next.tree.nodes[node as int].children;
            assert(left == children.remove(at - 1));
            assert forall|p: int, id: u32|
                0 <= p < at - 1 && #[trigger] carried_under(
                    next.tree,
                    next.tree.nodes[node as int].children[p],
                    id,
                ) implies next.registry.contains_key(id) by {
                let sibling = children[p];
                assert(left[p] == sibling);
                assert(sibling != child);
                let m = choose|m: int|
                    0 <= m < next.tree.nodes.len() && under(next.tree, sibling, m)
                        && next.tree.nodes[m].vdom_id == Some(id);
                assert(!under(next.tree, sibling, child as int));
                lemma_under_avoiding(next.tree, s.tree, sibling, child, m);
                assert(0 <= m < s.tree.nodes.len() && under(s.tree, sibling, m)
                    && s.tree.nodes[m].vdom_id == Some(id));
                assert(carried_under(s.tree, children[p], id));
                lemma_under_one_child(s.tree, node, sibling, child, m);
                lemma_retire_spares_others(s.tree, s.registry, child, m);
            }
            lemma_children_dropped_succeeds(next, node, (at - 1) as nat, (budget - 1) as nat);
        }
    }
}

/// Truncating an element succeeds where it is asked to keep no more
/// children than it has and every identifier that is carried at or below
/// one of its children has its entry in the registry.
pub proof fn lemma_truncate_succeeds(s: Cycle, node: usize, patch: Patch, wired: bool)
    requires
        s.tree.wf(),
        node < s.tree.nodes.len(),
        patch matches Patch::TruncateChildren(_, _, remaining) && remaining
            <= s.tree.nodes[node as int].children.len(),
        forall|p: int, id: u32|
            0 <= p < s.tree.nodes[node as int].children.len() && #[trigger] carried_under(
                s.tree,
                s.tree.nodes[node as int].children[p],
                id,
            ) ==> s.registry.contains_key(id),
    ensures
        element_patched(s, node, patch, wired).error is None,
{
    let remaining = patch->TruncateChildren_2;
    lemma_children_dropped_succeeds(
        s,
        node,
        s.tree.nodes[node as int].children.len(),
        excess(s.tree, node, remaining),
    );
}

/// Dropping children registers nothing.
pub proof fn lemma_children_dropped_created(s: Cycle, node: usize, at: nat, budget: nat)
    ensures
        children_dropped(s, node, at, budget).state.created == s.created,
    decreases at,
{
    if at > 0 && budget > 0 {
        let child = s.tree.nodes[node as int].children[at - 1];
        if s.tree.nodes[child as int].kind == NodeKind::Comment {
            lemma_children_dropped_created(s, node, (at - 1) as nat, budget);
        } else if can_retire(s, child) {
            let told = callbacks_retired(s, child);
            lemma_children_dropped_created(
                Cycle { tree: told.tree.remove_child(node, child), ..told },
                node,
                (at - 1) as nat,
                (budget - 1) as nat,
            );
        }
    }
}

/// Truncating to no children retires every child that is no comment: no
/// identifier that such a child or an element below it carried has an entry
/// in the registry afterwards, and no callback is registered.
pub proof fn lemma_truncate_to_nothing_retires(
    s: Cycle,
    node: usize,
    patch: Patch,
    wired: bool,
    p: int,
)
    requires
        s.tree.wf(),
        node < s.tree.nodes.len(),
        patch matches Patch::TruncateChildren(_, _, remaining) && remaining == 0,
        element_patched(s, node, patch, wired).error is None,
        0 <= p < s.tree.nodes[node as int].children.len(),
        s.tree.nodes[s.tree.nodes[node as int].children[p] as int].kind != NodeKind::Comment,
    ensures
        element_patched(s, node, patch, wired).state.created == s.created,
        forall|i: int|
            0 <= i < subtree_ids(
                s.tree,
                s.tree.nodes[node as int].children[p] as int,
            ).len() ==> !element_patched(s, node, patch, wired).state.registry.contains_key(
                #[trigger] subtree_ids(s.tree, s.tree.nodes[node as int].children[p] as int)[i],
            ),
{
    let children = s.tree.nodes[node as int].children;
    let budget = excess(s.tree, node, 0);
    lemma_children_dropped_created(s, node, children.len(), budget);
    lemma_counted_grows(s.tree, children, 0, p as nat);
    assert(counted_children(s.tree, children, (p + 1) as nat) >= 1);
    lemma_dropped_ids_absent(s, node, children.len(), budget, p);
}

/// Applying attributes to an element moves no node: every node keeps its
/// children, its parent, its kind and its identifier.
pub proof fn lemma_attributes_applied_in_place(
    t: LiveTreeView,
    node: usize,
    attrs: Seq<crate::vdom::Attribute>,
    k: nat,
)
    requires
        node < t.nodes.len(),
    ensures
        ({
            let after = attributes_applied(t, node, attrs, k);
            &&& after.nodes.len() == t.nodes.len()
            &&& after.root == t.root
            &&& forall|n: int|
                0 <= n < t.nodes.len() ==> (#[trigger] after.nodes[n]).children
                    == t.nodes[n].children && after.nodes[n].parent == t.nodes[n].parent
                    && after.nodes[n].kind == t.nodes[n].kind && after.nodes[n].vdom_id
                    == t.nodes[n].vdom_id
        }),
    decreases k,
{
    if k > 0 && k <= attrs.len() {
        lemma_attributes_applied_in_place(t, node, attrs, (k - 1) as nat);
    }
}

} // verus!
