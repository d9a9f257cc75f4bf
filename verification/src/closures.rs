//! The closure registry: which callbacks are registered under which
//! identifier, and how they are retired when their element leaves the tree.
use std::collections::HashMap;
use vstd::prelude::*;
use crate::error::Error;
use crate::host::LiveTree;
use crate::live::{HostOpView, LiveTreeView, NodeKind};
use crate::vdom::Callback;

verus! {

/// A callback registered for an event.
#[derive(Debug, PartialEq)]
pub struct Listener {
    pub event: String,
    pub callback: Callback,
}

/// The listeners of one identifier as mathematical values: the name of the
/// event and the callback, in the order of registration.
pub open spec fn listeners_view(listeners: Seq<Listener>) -> Seq<(Seq<char>, Callback)> {
    listeners.map_values(|l: Listener| (l.event@, l.callback))
}

/// The registry: for each identifier the callbacks that were registered on
/// the element that carries it.
#[derive(Debug)]
pub struct ActiveClosure {
    pub map: HashMap<u32, Vec<Listener>>,
}

impl View for ActiveClosure {
    type V = Map<u32, Seq<(Seq<char>, Callback)>>;

    open spec fn view(&self) -> Map<u32, Seq<(Seq<char>, Callback)>> {
        Map::new(|id: u32| self.map@.contains_key(id), |id: u32| listeners_view(self.map@[id]@))
    }
}

impl ActiveClosure {
    /// A registry without entries.
    pub fn new() -> (registry: ActiveClosure)
        ensures
            registry@ == Map::<u32, Seq<(Seq<char>, Callback)>>::empty(),
    {
        broadcast use vstd::std_specs::hash::group_hash_axioms;

        let registry = ActiveClosure { map: HashMap::new() };
        assert(registry@ =~= Map::<u32, Seq<(Seq<char>, Callback)>>::empty());
        registry
    }

    /// The number of identifiers with an entry.
    pub fn len(&self) -> (n: usize)
        ensures
            n == self@.dom().len(),
    {
        broadcast use vstd::std_specs::hash::group_hash_axioms;

        proof {
            assert(self@.dom() =~= self.map@.dom());
        }
        self.map.len()
    }

    /// Whether `id` has an entry.
    pub fn contains(&self, id: u32) -> (present: bool)
        ensures
            present == self@.contains_key(id),
    {
        broadcast use vstd::std_specs::hash::group_hash_axioms;

        self.map.contains_key(&id)
    }

    /// The callbacks registered under `id`.
    pub fn get(&self, id: u32) -> (listeners: Option<&Vec<Listener>>)
        ensures
            match listeners {
                Some(l) => self@.contains_key(id) && listeners_view(l@) == self@[id],
                None => !self@.contains_key(id),
            },
    {
        broadcast use vstd::std_specs::hash::group_hash_axioms;

        self.map.get(&id)
    }

    /// Registers `listeners` under `id`, in place of what was there.
    pub fn insert(&mut self, id: u32, listeners: Vec<Listener>)
        ensures
            final(self)@ == old(self)@.insert(id, listeners_view(listeners@)),
    {
        broadcast use vstd::std_specs::hash::group_hash_axioms;

        let ghost view = listeners_view(listeners@);
        self.map.insert(id, listeners);
        assert(self@ =~= old(self)@.insert(id, view));
    }

    /// Takes the entry of `id` out of the registry.
    pub fn remove(&mut self, id: u32) -> (listeners: Option<Vec<Listener>>)
        ensures
            final(self)@ == old(self)@.remove(id),
            match listeners {
                Some(l) => old(self)@.contains_key(id) && listeners_view(l@) == old(self)@[id],
                None => !old(self)@.contains_key(id),
            },
    {
        broadcast use vstd::std_specs::hash::group_hash_axioms;

        let listeners = self.map.remove(&id);
        assert(self@ =~= old(self)@.remove(id));
        listeners
    }
}

/// The identifier that `n` carries, as a sequence of none or one.
pub open spec fn own_id(t: LiveTreeView, n: int) -> Seq<u32> {
    match t.nodes[n].vdom_id {
        Some(id) => seq![id],
        None => Seq::empty(),
    }
}

/// The identifiers carried by `n` and by the elements below it that are
/// reached through elements: that of `n` first, then those of its element
/// children with all below them, in document order.
pub open spec fn subtree_ids(t: LiveTreeView, n: int) -> Seq<u32>
    decreases t.nodes.len() - n, t.nodes[n].children.len() + 1,
{
    if 0 <= n < t.nodes.len() {
        own_id(t, n) + children_ids(t, n, t.nodes[n].children.len())
    } else {
        Seq::empty()
    }
}

/// The identifiers carried by the first `k` children of `n` and below
/// them.
pub open spec fn children_ids(t: LiveTreeView, n: int, k: nat) -> Seq<u32>
    decreases t.nodes.len() - n, k,
{
    if k == 0 || !(0 <= n < t.nodes.len()) || k > t.nodes[n].children.len() {
        Seq::empty()
    } else {
        children_ids(t, n, (k - 1) as nat) + child_ids(t, n, t.nodes[n].children[k - 1])
    }
}

/// The identifiers carried by the child `c` of `n` and below it; none
/// unless `c` is an element.
pub open spec fn child_ids(t: LiveTreeView, n: int, c: usize) -> Seq<u32>
    decreases t.nodes.len() - n, 0nat,
{
    if 0 <= n < c < t.nodes.len() && t.nodes[c as int].kind == NodeKind::Element {
        subtree_ids(t, c as int)
    } else {
        Seq::empty()
    }
}

/// The identifiers of `root_element` and of the elements below it, its own
/// first.
pub fn get_node_descendant_data_vdom_id(tree: &LiveTree, root_element: usize) -> (data_vdom_id: Vec<
    u32,
>)
    requires
        tree@.wf(),
        root_element < tree@.nodes.len(),
    ensures
        data_vdom_id@ == subtree_ids(tree@, root_element as int),
    decreases tree@.nodes.len() - root_element,
{
    let mut data_vdom_id: Vec<u32> = Vec::new();
    match tree.vdom_id(root_element) {
        Some(vdom_id) => {
            data_vdom_id.push(vdom_id);
        },
        None => {},
    }
    let child_node_count = tree.child_count(root_element);
    let mut i: usize = 0;
    proof {
        assert(data_vdom_id@ =~= own_id(tree@, root_element as int) + children_ids(
            tree@,
            root_element as int,
            0,
        ));
    }
    while i < child_node_count
        invariant
            i <= child_node_count,
            tree@.wf(),
            root_element < tree@.nodes.len(),
            child_node_count == tree@.nodes[root_element as int].children.len(),
            data_vdom_id@ == own_id(tree@, root_element as int) + children_ids(
                tree@,
                root_element as int,
                i as nat,
            ),
        decreases child_node_count - i,
    {
        let child_node = tree.child_at(root_element, i);
        proof {
            assert(tree@.node_ok(root_element as int));
            assert(tree@.nodes[root_element as int].children[i as int] == child_node);
        }
        let ghost before = data_vdom_id@;
        match tree.kind(child_node) {
            NodeKind::Element => {
                let mut child_data_vdom_id = get_node_descendant_data_vdom_id(tree, child_node);
                data_vdom_id.append(&mut child_data_vdom_id);
            },
            _ => {},
        }
        i = i + 1;
        proof {
            assert(data_vdom_id@ =~= before + child_ids(tree@, root_element as int, child_node));
            assert(data_vdom_id@ =~= own_id(tree@, root_element as int) + children_ids(
                tree@,
                root_element as int,
                i as nat,
            ));
        }
    }
    data_vdom_id
}

/// The registry after the entries of the first `k` of `ids` were taken
/// out one after the other; nothing where one of them had no entry when
/// its turn came.
pub open spec fn retired(
    registry: Map<u32, Seq<(Seq<char>, Callback)>>,
    ids: Seq<u32>,
    k: nat,
) -> Option<Map<u32, Seq<(Seq<char>, Callback)>>>
    decreases k,
{
    if k == 0 || k > ids.len() {
        Some(registry)
    } else {
        match retired(registry, ids, (k - 1) as nat) {
            Some(before) => if before.contains_key(ids[k - 1]) {
                Some(before.remove(ids[k - 1]))
            } else {
                None
            },
            None => None,
        }
    }
}

/// The registry as retiring the first `k` of `ids` leaves it: the entries
/// are taken out one after the other, up to the first identifier that has
/// none.
pub open spec fn retained(
    registry: Map<u32, Seq<(Seq<char>, Callback)>>,
    ids: Seq<u32>,
    k: nat,
) -> Map<u32, Seq<(Seq<char>, Callback)>>
    decreases k,
{
    if k == 0 || k > ids.len() {
        registry
    } else {
        match retired(registry, ids, k) {
            Some(after) => after,
            None => retained(registry, ids, (k - 1) as nat),
        }
    }
}

/// The requests to unregister from `node` the `listeners` kept under
/// `vdom_id`, in order.
pub open spec fn unlisten_ops(node: usize, vdom_id: u32, listeners: Seq<(Seq<char>, Callback)>) -> Seq<
    HostOpView,
> {
    listeners.map_values(
        |l: (Seq<char>, Callback)|
            HostOpView::RemoveEventListener { node, vdom_id, event: l.0, callback: l.1 },
    )
}

/// The requests that retiring the first `k` of `ids` makes of the host:
/// for each identifier in turn, one for each of its callbacks, all of them
/// addressed to `node`.
pub open spec fn retire_ops(
    registry: Map<u32, Seq<(Seq<char>, Callback)>>,
    node: usize,
    ids: Seq<u32>,
    k: nat,
) -> Seq<HostOpView>
    decreases k,
{
    if k == 0 || k > ids.len() {
        Seq::empty()
    } else {
        retire_ops(registry, node, ids, (k - 1) as nat) + (match retired(
            registry,
            ids,
            (k - 1) as nat,
        ) {
            Some(before) => if before.contains_key(ids[k - 1]) {
                unlisten_ops(node, ids[k - 1], before[ids[k - 1]])
            } else {
                Seq::empty()
            },
            None => Seq::empty(),
        })
    }
}

/// Retires the callbacks of `node` and of the elements below it: for each
/// of their identifiers in turn, the host is asked to unregister its
/// callbacks from `node`, and its entry leaves the registry.
///
/// Fails, at the first identifier without an entry, with
/// `RegistryInconsistency`; what was retired before stays retired.
pub fn remove_event_listeners(
    tree: &mut LiveTree,
    node: usize,
    old_closures: &mut ActiveClosure,
) -> (result: Result<(), Error>)
    requires
        old(tree)@.wf(),
        node < old(tree)@.nodes.len(),
    ensures
        final(tree)@.wf(),
        final(tree)@.nodes == old(tree)@.nodes,
        final(tree)@.root == old(tree)@.root,
        final(tree)@.next_vdom_id == old(tree)@.next_vdom_id,
        ({
            let ids = subtree_ids(old(tree)@, node as int);
            &&& final(old_closures)@ == retained(old(old_closures)@, ids, ids.len())
            &&& final(tree)@ == old(tree)@.journaled(
                retire_ops(old(old_closures)@, node, ids, ids.len()),
            )
            &&& match result {
                Ok(_) => retired(old(old_closures)@, ids, ids.len()) is Some,
                Err(e) => e == Error::RegistryInconsistency && retired(
                    old(old_closures)@,
                    ids,
                    ids.len(),
                ) is None,
            }
        }),
{
    let all_descendant_vdom_id = get_node_descendant_data_vdom_id(tree, node);
    let ghost ids = all_descendant_vdom_id@;
    let ghost start = old(old_closures)@;
    let mut k: usize = 0;
    proof {
        assert(tree@.journal =~= old(tree)@.journal + retire_ops(start, node, ids, 0));
    }
    while k < all_descendant_vdom_id.len()
        invariant
            k <= all_descendant_vdom_id.len(),
            ids == all_descendant_vdom_id@,
            ids == subtree_ids(old(tree)@, node as int),
            start == old(old_closures)@,
            tree@.wf(),
            tree@ == old(tree)@.journaled(retire_ops(start, node, ids, k as nat)),
            retired(start, ids, k as nat) == Some(old_closures@),
        decreases all_descendant_vdom_id.len() - k,
    {
        let vdom_id = all_descendant_vdom_id[k];
        let ghost before_ops = retire_ops(start, node, ids, k as nat);
        let ghost registry = old_closures@;
        match old_closures.get(vdom_id) {
            Some(old_closure) => {
                let mut j: usize = 0;
                proof {
                    assert(unlisten_ops(node, vdom_id, registry[vdom_id]).take(0) =~= Seq::empty());
                    assert(tree@.journal =~= old(tree)@.journal + (before_ops + unlisten_ops(
                        node,
                        vdom_id,
                        registry[vdom_id],
                    ).take(0)));
                }
                while j < old_closure.len()
                    invariant
                        j <= old_closure.len(),
                        tree@.wf(),
                        listeners_view(old_closure@) == registry[vdom_id],
                        tree@ == old(tree)@.journaled(
                            before_ops + unlisten_ops(node, vdom_id, registry[vdom_id]).take(j as int),
                        ),
                    decreases old_closure.len() - j,
                {
                    let listener = &old_closure[j];
                    tree.remove_event_listener(
                        node,
                        vdom_id,
                        listener.event.as_str(),
                        listener.callback,
                    );
                    proof {
                        let all = unlisten_ops(node, vdom_id, registry[vdom_id]);
                        assert(all.take(j + 1) =~= all.take(j as int).push(all[j as int]));
                        assert(tree@.journal =~= old(tree)@.journal + (before_ops + all.take(
                            j + 1,
                        )));
                    }
                    j = j + 1;
                }
                proof {
                    let all = unlisten_ops(node, vdom_id, registry[vdom_id]);
                    assert(all.take(all.len() as int) =~= all);
                }
            },
            None => {
                proof {
                    assert(retired(start, ids, (k + 1) as nat) is None);
                    assert(retained(start, ids, k as nat) == old_closures@);
                    assert(retained(start, ids, (k + 1) as nat) == old_closures@);
                    assert(retire_ops(start, node, ids, (k + 1) as nat) =~= before_ops);
                    lemma_retired_fails(start, ids, node, (k + 1) as nat, ids.len());
                }
                return Err(Error::RegistryInconsistency);
            },
        }
        old_closures.remove(vdom_id);
        k = k + 1;
    }
    Ok(())
}

/// Once an identifier had no entry at its turn, retiring more identifiers
/// does not succeed either, and changes nothing any more.
pub proof fn lemma_retired_fails(
    registry: Map<u32, Seq<(Seq<char>, Callback)>>,
    ids: Seq<u32>,
    node: usize,
    k: nat,
    n: nat,
)
    requires
        k <= n <= ids.len(),
        retired(registry, ids, k) is None,
    ensures
        retired(registry, ids, n) is None,
        retained(registry, ids, n) == retained(registry, ids, k),
        retire_ops(registry, node, ids, n) == retire_ops(registry, node, ids, k),
    decreases n,
{
    if n > k {
        lemma_retired_fails(registry, ids, node, k, (n - 1) as nat);
        assert(retire_ops(registry, node, ids, n) =~= retire_ops(
            registry,
            node,
            ids,
            (n - 1) as nat,
        ));
    }
}

/// Where every identifier had its entry, the registry is left as retiring
/// all of them leaves it.
pub proof fn lemma_retained_is_retired(
    registry: Map<u32, Seq<(Seq<char>, Callback)>>,
    ids: Seq<u32>,
    k: nat,
)
    requires
        k <= ids.len(),
        retired(registry, ids, k) is Some,
    ensures
        retained(registry, ids, k) == retired(registry, ids, k)->0,
{
}

/// What is collected from `c` depends on the nodes from `c` on alone: on
/// their children, kinds and identifiers.
pub proof fn lemma_subtree_ids_same(t: LiveTreeView, u: LiveTreeView, c: int)
    requires
        t.nodes.len() == u.nodes.len(),
        forall|x: int|
            c <= x < t.nodes.len() ==> (#[trigger] u.nodes[x]).children == t.nodes[x].children
                && u.nodes[x].kind == t.nodes[x].kind && u.nodes[x].vdom_id == t.nodes[x].vdom_id,
    ensures
        subtree_ids(u, c) == subtree_ids(t, c),
    decreases t.nodes.len() - c, t.nodes[c].children.len() + 1,
{
    if 0 <= c < t.nodes.len() {
        assert(u.nodes[c].children == t.nodes[c].children);
        lemma_children_ids_same(t, u, c, c, t.nodes[c].children.len());
    }
}

/// What is collected from the children of `n` depends on the nodes from
/// `from` on alone, where `n` is one of them.
pub proof fn lemma_children_ids_same(t: LiveTreeView, u: LiveTreeView, from: int, n: int, k: nat)
    requires
        t.nodes.len() == u.nodes.len(),
        from <= n,
        forall|x: int|
            from <= x < t.nodes.len() ==> (#[trigger] u.nodes[x]).children == t.nodes[x].children
                && u.nodes[x].kind == t.nodes[x].kind && u.nodes[x].vdom_id == t.nodes[x].vdom_id,
    ensures
        children_ids(u, n, k) == children_ids(t, n, k),
    decreases t.nodes.len() - n, k,
{
    if k == 0 || !(0 <= n < t.nodes.len()) || k > t.nodes[n].children.len() {
        if 0 <= n < t.nodes.len() {
            assert(u.nodes[n].children == t.nodes[n].children);
        }
    } else {
        assert(u.nodes[n].children == t.nodes[n].children);
        lemma_children_ids_same(t, u, from, n, (k - 1) as nat);
        let c = t.nodes[n].children[k - 1];
        if n < c < t.nodes.len() {
            assert(u.nodes[c as int].kind == t.nodes[c as int].kind);
            if t.nodes[c as int].kind == NodeKind::Element {
                lemma_subtree_ids_same(t, u, c as int);
            }
        }
        assert(child_ids(u, n, c) == child_ids(t, n, c));
        assert(children_ids(u, n, k) == children_ids(u, n, (k - 1) as nat) + child_ids(u, n, c));
    }
}

} // verus!
