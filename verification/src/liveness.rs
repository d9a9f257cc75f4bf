//! Which nodes are live, and what the registry owes them.
//!
//! A node is live while its chain of parents leads to the root. No callback
//! is lost as long as every live node that carries an identifier has an
//! entry, in the registry of the cycle or among the callbacks registered
//! during the cycle ([`accounted`]); none is kept too long as long as every
//! entry of the registry belongs to a live node ([`owned`]). Mounting a tree
//! establishes both, and every patch that succeeds keeps both. What is live
//! after a cycle and was there before it keeps its entry with the same
//! callbacks ([`survivors_keep`]), and retiring succeeds where every
//! identifier at or below the node has its entry ([`lemma_can_be_retired`]).
use vstd::prelude::*;
use crate::closures::{child_ids, children_ids, own_id, retired, subtree_ids};
use crate::create::{keeps_entries, registered};
use crate::live::{LiveTreeView, NodeKind};
use crate::vdom::Callback;

verus! {

/// Whether `n` is `c` or stands below it.
pub open spec fn under(t: LiveTreeView, c: usize, n: int) -> bool
    decreases n,
{
    if n == c {
        true
    } else if 0 <= n < t.nodes.len() && t.nodes[n].parent is Some && t.nodes[n].parent->0 < n {
        under(t, c, t.nodes[n].parent->0 as int)
    } else {
        false
    }
}

/// Whether `n` is part of the tree that hangs from the root.
pub open spec fn live(t: LiveTreeView, n: int) -> bool {
    0 <= n < t.nodes.len() && under(t, t.root, n)
}

/// Whether every live node that carries an identifier has an entry under
/// it, in `registry` or in `created`.
pub open spec fn accounted(
    t: LiveTreeView,
    registry: Map<u32, Seq<(Seq<char>, Callback)>>,
    created: Map<u32, Seq<(Seq<char>, Callback)>>,
) -> bool {
    forall|n: int|
        live(t, n) && (#[trigger] t.nodes[n].vdom_id) is Some ==> registry.contains_key(
            t.nodes[n].vdom_id->0,
        ) || created.contains_key(t.nodes[n].vdom_id->0)
}

/// Whether some node at or below `c` carries `id`.
pub open spec fn carried_under(t: LiveTreeView, c: usize, id: u32) -> bool {
    exists|m: int| 0 <= m < t.nodes.len() && under(t, c, m) && t.nodes[m].vdom_id == Some(id)
}

/// What stands below a node was created after it.
pub proof fn lemma_under_later(t: LiveTreeView, c: usize, n: int)
    requires
        under(t, c, n),
    ensures
        c <= n,
    decreases n,
{
    if n != c {
        lemma_under_later(t, c, t.nodes[n].parent->0 as int);
    }
}

/// What stands below a child stands below its parent.
pub proof fn lemma_under_parent(t: LiveTreeView, p: usize, c: usize, n: int)
    requires
        c < t.nodes.len(),
        t.nodes[c as int].parent == Some(p),
        p < c,
        under(t, c, n),
    ensures
        under(t, p, n),
    decreases n,
{
    if n != c {
        lemma_under_later(t, c, n);
        lemma_under_parent(t, p, c, t.nodes[n].parent->0 as int);
    } else {
        assert(under(t, p, p as int));
    }
}

/// Where two trees agree on the parents of their first `bound` nodes, they
/// agree on what among these stands below what.
pub proof fn lemma_under_same(t: LiveTreeView, u: LiveTreeView, c: usize, n: int, bound: int)
    requires
        bound <= t.nodes.len(),
        bound <= u.nodes.len(),
        forall|m: int| 0 <= m < bound ==> (#[trigger] u.nodes[m]).parent == t.nodes[m].parent,
        0 <= n < bound,
    ensures
        under(u, c, n) == under(t, c, n),
    decreases n,
{
    if n != c {
        assert(u.nodes[n].parent == t.nodes[n].parent);
        if t.nodes[n].parent is Some && t.nodes[n].parent->0 < n {
            lemma_under_same(t, u, c, t.nodes[n].parent->0 as int, bound);
        }
    }
}

/// After a node was taken out of its place, the nodes that are still live
/// were live before and did not stand at or below it. This holds of the
/// nodes of the tree as it was, whether the place went to a new node, which
/// may have become the root, or to none.
pub proof fn lemma_live_after_detach(
    before: LiveTreeView,
    after: LiveTreeView,
    node: usize,
    n: int,
)
    requires
        before.wf(),
        before.nodes.len() <= after.nodes.len(),
        node < before.nodes.len(),
        forall|m: int|
            0 <= m < before.nodes.len() && m != node ==> (#[trigger] after.nodes[m]).parent
                == before.nodes[m].parent,
        after.root >= before.nodes.len() || (after.root == before.root && node != before.root
            && after.nodes[node as int].parent is None),
        0 <= n < before.nodes.len(),
        live(after, n),
    ensures
        live(before, n),
        !under(before, node, n),
    decreases n,
{
    if after.root >= before.nodes.len() {
        lemma_under_later(after, after.root, n);
    } else if n == before.root {
        if under(before, node, n) {
            assert(before.nodes[n].parent is None);
        }
    } else {
        assert(n != node);
        assert(after.nodes[n].parent == before.nodes[n].parent);
        let p = before.nodes[n].parent->0;
        assert(before.node_ok(n));
        lemma_live_after_detach(before, after, node, p as int);
    }
}

/// Every identifier that is collected from a node is carried by a node at
/// or below it.
pub proof fn lemma_subtree_ids_under(t: LiveTreeView, c: int)
    requires
        t.wf(),
        0 <= c < t.nodes.len(),
    ensures
        forall|i: int|
            0 <= i < subtree_ids(t, c).len() ==> carried_under(
                t,
                c as usize,
                #[trigger] subtree_ids(t, c)[i],
            ),
    decreases t.nodes.len() - c, t.nodes[c].children.len() + 1,
{
    lemma_children_ids_under(t, c, t.nodes[c].children.len());
    let own = own_id(t, c);
    let below = children_ids(t, c, t.nodes[c].children.len());
    assert forall|i: int| 0 <= i < subtree_ids(t, c).len() implies carried_under(
        t,
        c as usize,
        #[trigger] subtree_ids(t, c)[i],
    ) by {
        if i < own.len() {
            assert(under(t, c as usize, c));
            assert(t.nodes[c].vdom_id == Some(subtree_ids(t, c)[i]));
        } else {
            assert(subtree_ids(t, c)[i] == below[i - own.len()]);
        }
    }
}

/// Every identifier that is collected from the children of a node is
/// carried by a node below it.
pub proof fn lemma_children_ids_under(t: LiveTreeView, n: int, k: nat)
    requires
        t.wf(),
        0 <= n < t.nodes.len(),
        k <= t.nodes[n].children.len(),
    ensures
        forall|i: int|
            0 <= i < children_ids(t, n, k).len() ==> carried_under(
                t,
                n as usize,
                #[trigger] children_ids(t, n, k)[i],
            ),
    decreases t.nodes.len() - n, k,
{
    if k > 0 {
        lemma_children_ids_under(t, n, (k - 1) as nat);
        let c = t.nodes[n].children[k - 1];
        let before = children_ids(t, n, (k - 1) as nat);
        let last = child_ids(t, n, c);
        assert(t.node_ok(n));
        if t.nodes[c as int].kind == NodeKind::Element {
            lemma_subtree_ids_under(t, c as int);
        }
        assert forall|i: int| 0 <= i < children_ids(t, n, k).len() implies carried_under(
            t,
            n as usize,
            #[trigger] children_ids(t, n, k)[i],
        ) by {
            if i < before.len() {
                assert(children_ids(t, n, k)[i] == before[i]);
            } else {
                let j = i - before.len();
                assert(children_ids(t, n, k)[i] == last[j]);
                assert(last == subtree_ids(t, c as int));
                assert(carried_under(t, c, subtree_ids(t, c as int)[j]));
                let m = choose|m: int|
                    0 <= m < t.nodes.len() && under(t, c, m) && t.nodes[m].vdom_id == Some(
                        last[j],
                    );
                lemma_under_parent(t, n as usize, c, m);
            }
        }
    }
}

/// Retiring takes out the entries of the identifiers retired, and of no
/// others.
pub proof fn lemma_retired_entries(
    registry: Map<u32, Seq<(Seq<char>, Callback)>>,
    ids: Seq<u32>,
    k: nat,
)
    requires
        k <= ids.len(),
        retired(registry, ids, k) is Some,
    ensures
        forall|j: int| 0 <= j < k ==> !retired(registry, ids, k)->0.contains_key(#[trigger] ids[j]),
        forall|id: u32| #[trigger]
            retired(registry, ids, k)->0.contains_key(id) ==> registry.contains_key(id)
                && retired(registry, ids, k)->0[id] == registry[id],
        forall|id: u32|
            registry.contains_key(id) && !ids.take(k as int).contains(id) ==> #[trigger] retired(
                registry,
                ids,
                k,
            )->0.contains_key(id),
    decreases k,
{
    if k > 0 {
        lemma_retired_entries(registry, ids, (k - 1) as nat);
        let before = retired(registry, ids, (k - 1) as nat)->0;
        let after = retired(registry, ids, k)->0;
        assert(after == before.remove(ids[k - 1]));
        assert forall|id: u32| registry.contains_key(id) && !ids.take(k as int).contains(id) implies #[trigger] after.contains_key(
            id,
        ) by {
            assert(ids.take(k as int)[k - 1] == ids[k - 1]);
            let shorter = ids.take(k - 1);
            if shorter.contains(id) {
                let j = choose|j: int| 0 <= j < shorter.len() && shorter[j] == id;
                assert(ids.take(k as int)[j] == id);
            }
        }
    }
}

/// After the callbacks of `node` and of all below it were retired, every
/// live node that stands neither at nor below `node` still has its entry.
pub proof fn lemma_retire_spares_others(
    t: LiveTreeView,
    registry: Map<u32, Seq<(Seq<char>, Callback)>>,
    node: usize,
    n: int,
)
    requires
        t.wf(),
        node < t.nodes.len(),
        0 <= n < t.nodes.len(),
        !under(t, node, n),
        t.nodes[n].vdom_id is Some,
        registry.contains_key(t.nodes[n].vdom_id->0),
        retired(registry, subtree_ids(t, node as int), subtree_ids(t, node as int).len()) is Some,
    ensures
        retired(
            registry,
            subtree_ids(t, node as int),
            subtree_ids(t, node as int).len(),
        )->0.contains_key(t.nodes[n].vdom_id->0),
{
    let ids = subtree_ids(t, node as int);
    let id = t.nodes[n].vdom_id->0;
    lemma_retired_entries(registry, ids, ids.len());
    lemma_subtree_ids_under(t, node as int);
    assert(ids.take(ids.len() as int) =~= ids);
    if ids.contains(id) {
        let i = choose|i: int| 0 <= i < ids.len() && ids[i] == id;
        assert(carried_under(t, node, ids[i]));
        let m = choose|m: int|
            0 <= m < t.nodes.len() && under(t, node, m) && t.nodes[m].vdom_id == Some(id);
        assert(t.distinct_ids());
        assert(m == n);
    }
}

/// Whether two trees hold the same nodes in the same places, with the same
/// identifiers.
pub open spec fn same_shape(t: LiveTreeView, u: LiveTreeView) -> bool {
    &&& t.nodes.len() == u.nodes.len()
    &&& t.root == u.root
    &&& forall|n: int|
        0 <= n < t.nodes.len() ==> (#[trigger] u.nodes[n]).parent == t.nodes[n].parent
            && u.nodes[n].vdom_id == t.nodes[n].vdom_id
}

/// A change that moves no node and touches no identifier leaves nothing
/// unaccounted for.
pub proof fn lemma_same_shape_accounted(
    t: LiveTreeView,
    u: LiveTreeView,
    registry: Map<u32, Seq<(Seq<char>, Callback)>>,
    created: Map<u32, Seq<(Seq<char>, Callback)>>,
)
    requires
        same_shape(t, u),
        accounted(t, registry, created),
    ensures
        accounted(u, registry, created),
{
    assert forall|n: int| live(u, n) && (#[trigger] u.nodes[n].vdom_id) is Some implies registry.contains_key(
        u.nodes[n].vdom_id->0,
    ) || created.contains_key(u.nodes[n].vdom_id->0) by {
        lemma_under_same(t, u, t.root, n, t.nodes.len() as int);
        assert(u.nodes[n].vdom_id == t.nodes[n].vdom_id);
        assert(t.nodes[n].vdom_id is Some);
    }
}

/// New nodes whose identifiers are registered leave nothing unaccounted
/// for, wherever they were put, as long as the nodes that were there kept
/// their places and identifiers.
pub proof fn lemma_grown_accounted(
    t: LiveTreeView,
    u: LiveTreeView,
    registry: Map<u32, Seq<(Seq<char>, Callback)>>,
    created: Map<u32, Seq<(Seq<char>, Callback)>>,
    grown: Map<u32, Seq<(Seq<char>, Callback)>>,
)
    requires
        t.nodes.len() <= u.nodes.len(),
        t.root == u.root,
        forall|n: int|
            0 <= n < t.nodes.len() ==> (#[trigger] u.nodes[n]).parent == t.nodes[n].parent
                && u.nodes[n].vdom_id == t.nodes[n].vdom_id,
        accounted(t, registry, created),
        keeps_entries(created, grown),
        registered(u, t.nodes.len() as int, grown),
    ensures
        accounted(u, registry, grown),
{
    assert forall|n: int| live(u, n) && (#[trigger] u.nodes[n].vdom_id) is Some implies registry.contains_key(
        u.nodes[n].vdom_id->0,
    ) || grown.contains_key(u.nodes[n].vdom_id->0) by {
        if n < t.nodes.len() {
            lemma_under_same(t, u, t.root, n, t.nodes.len() as int);
            assert(u.nodes[n].vdom_id == t.nodes[n].vdom_id);
            assert(t.nodes[n].vdom_id is Some);
        }
    }
}

/// After a node was taken out of its place, nothing is unaccounted for,
/// provided that the entries of the live nodes that stood neither at nor
/// below it were kept, and that the identifiers of new nodes are registered.
pub proof fn lemma_detached_accounted(
    before: LiveTreeView,
    after: LiveTreeView,
    node: usize,
    registry: Map<u32, Seq<(Seq<char>, Callback)>>,
    kept: Map<u32, Seq<(Seq<char>, Callback)>>,
    created: Map<u32, Seq<(Seq<char>, Callback)>>,
    grown: Map<u32, Seq<(Seq<char>, Callback)>>,
)
    requires
        before.wf(),
        before.nodes.len() <= after.nodes.len(),
        node < before.nodes.len(),
        forall|m: int|
            0 <= m < before.nodes.len() && m != node ==> (#[trigger] after.nodes[m]).parent
                == before.nodes[m].parent,
        forall|m: int|
            0 <= m < before.nodes.len() ==> (#[trigger] after.nodes[m]).vdom_id
                == before.nodes[m].vdom_id,
        after.root >= before.nodes.len() || (after.root == before.root && node != before.root
            && after.nodes[node as int].parent is None),
        accounted(before, registry, created),
        forall|n: int|
            0 <= n < before.nodes.len() && !under(before, node, n) && (
            #[trigger] before.nodes[n].vdom_id) is Some && registry.contains_key(
                before.nodes[n].vdom_id->0,
            ) ==> kept.contains_key(before.nodes[n].vdom_id->0),
        keeps_entries(created, grown),
        registered(after, before.nodes.len() as int, grown),
    ensures
        accounted(after, kept, grown),
{
    assert forall|n: int| live(after, n) && (#[trigger] after.nodes[n].vdom_id) is Some implies kept.contains_key(
        after.nodes[n].vdom_id->0,
    ) || grown.contains_key(after.nodes[n].vdom_id->0) by {
        if n < before.nodes.len() {
            lemma_live_after_detach(before, after, node, n);
            assert(after.nodes[n].vdom_id == before.nodes[n].vdom_id);
            assert(before.nodes[n].vdom_id is Some);
        }
    }
}

/// After the callbacks of a node and of all below it were retired and the
/// node was taken out of its place, nothing is unaccounted for, provided
/// that the identifiers of new nodes are registered.
pub proof fn lemma_retired_accounted(
    before: LiveTreeView,
    after: LiveTreeView,
    node: usize,
    registry: Map<u32, Seq<(Seq<char>, Callback)>>,
    created: Map<u32, Seq<(Seq<char>, Callback)>>,
    grown: Map<u32, Seq<(Seq<char>, Callback)>>,
)
    requires
        before.wf(),
        before.nodes.len() <= after.nodes.len(),
        node < before.nodes.len(),
        forall|m: int|
            0 <= m < before.nodes.len() && m != node ==> (#[trigger] after.nodes[m]).parent
                == before.nodes[m].parent,
        forall|m: int|
            0 <= m < before.nodes.len() ==> (#[trigger] after.nodes[m]).vdom_id
                == before.nodes[m].vdom_id,
        after.root >= before.nodes.len() || (after.root == before.root && node != before.root
            && after.nodes[node as int].parent is None),
        accounted(before, registry, created),
        retired(registry, subtree_ids(before, node as int), subtree_ids(before, node as int).len())
            is Some,
        keeps_entries(created, grown),
        registered(after, before.nodes.len() as int, grown),
    ensures
        accounted(
            after,
            retired(
                registry,
                subtree_ids(before, node as int),
                subtree_ids(before, node as int).len(),
            )->0,
            grown,
        ),
{
    let ids = subtree_ids(before, node as int);
    let kept = retired(registry, ids, ids.len())->0;
    assert forall|n: int|
        0 <= n < before.nodes.len() && !under(before, node, n) && (
        #[trigger] before.nodes[n].vdom_id) is Some && registry.contains_key(
            before.nodes[n].vdom_id->0,
        ) implies kept.contains_key(before.nodes[n].vdom_id->0) by {
        lemma_retire_spares_others(before, registry, node, n);
    }
    lemma_detached_accounted(before, after, node, registry, kept, created, grown);
}

/// A node that is no element carries no identifier and, unless it is the
/// root, has no children: retiring it retires nothing.
pub proof fn lemma_no_ids_without_children(t: LiveTreeView, n: int)
    requires
        t.wf(),
        0 <= n < t.nodes.len(),
        t.nodes[n].vdom_id is None,
        t.nodes[n].children.len() == 0,
    ensures
        subtree_ids(t, n) == Seq::<u32>::empty(),
{
    assert(subtree_ids(t, n) =~= Seq::<u32>::empty());
}

/// The identifiers retired with a node are gone from the registry.
pub proof fn lemma_retired_ids_absent(
    t: LiveTreeView,
    registry: Map<u32, Seq<(Seq<char>, Callback)>>,
    node: usize,
)
    requires
        retired(registry, subtree_ids(t, node as int), subtree_ids(t, node as int).len()) is Some,
    ensures
        forall|i: int|
            0 <= i < subtree_ids(t, node as int).len() ==> !retired(
                registry,
                subtree_ids(t, node as int),
                subtree_ids(t, node as int).len(),
            )->0.contains_key(#[trigger] subtree_ids(t, node as int)[i]),
{
    lemma_retired_entries(
        registry,
        subtree_ids(t, node as int),
        subtree_ids(t, node as int).len(),
    );
}

/// Whether some live node carries `id`.
pub open spec fn carried_live(t: LiveTreeView, id: u32) -> bool {
    exists|n: int| live(t, n) && t.nodes[n].vdom_id == Some(id)
}

/// Whether every entry of `registry` belongs to a live node: nothing is
/// kept for what has left the tree.
pub open spec fn owned(t: LiveTreeView, registry: Map<u32, Seq<(Seq<char>, Callback)>>) -> bool {
    forall|id: u32| registry.contains_key(id) ==> #[trigger] carried_live(t, id)
}

/// What is collected from one of the first `k` children of `n` is among
/// what is collected from these children.
pub proof fn lemma_child_ids_collected(t: LiveTreeView, n: int, i: int, k: nat, id: u32)
    requires
        0 <= n < t.nodes.len(),
        0 <= i < k <= t.nodes[n].children.len(),
        child_ids(t, n, t.nodes[n].children[i]).contains(id),
    ensures
        children_ids(t, n, k).contains(id),
    decreases k,
{
    let before = children_ids(t, n, (k - 1) as nat);
    let last = child_ids(t, n, t.nodes[n].children[k - 1]);
    if i < k - 1 {
        lemma_child_ids_collected(t, n, i, (k - 1) as nat, id);
        let j = choose|j: int| 0 <= j < before.len() && before[j] == id;
        assert(children_ids(t, n, k)[j] == id);
    } else {
        let j = choose|j: int| 0 <= j < last.len() && last[j] == id;
        assert(children_ids(t, n, k)[before.len() + j] == id);
    }
}

/// What is collected from a node at or below `c` is collected from `c`.
pub proof fn lemma_subtree_ids_cover(t: LiveTreeView, c: usize, q: int, id: u32)
    requires
        t.wf(),
        c < t.nodes.len(),
        0 <= q < t.nodes.len(),
        under(t, c, q),
        subtree_ids(t, q).contains(id),
    ensures
        subtree_ids(t, c as int).contains(id),
    decreases q,
{
    if q != c {
        assert(t.node_ok(q));
        let p = t.nodes[q].parent->0;
        assert(t.node_ok(p as int));
        if t.nodes[q].kind != NodeKind::Element {
            assert(q != t.root);
            assert(subtree_ids(t, q) =~= Seq::<u32>::empty());
        }
        let children = t.nodes[p as int].children;
        let i = choose|i: int| 0 <= i < children.len() && children[i] == q as usize;
        assert(child_ids(t, p as int, children[i]) == subtree_ids(t, q));
        lemma_child_ids_collected(t, p as int, i, children.len(), id);
        let below = children_ids(t, p as int, children.len());
        let j = choose|j: int| 0 <= j < below.len() && below[j] == id;
        let own = own_id(t, p as int);
        assert(subtree_ids(t, p as int)[own.len() + j] == id);
        lemma_subtree_ids_cover(t, c, p as int, id);
    }
}

/// The identifier of a node at or below `c` is collected from `c`.
pub proof fn lemma_under_is_collected(t: LiveTreeView, c: usize, m: int)
    requires
        t.wf(),
        c < t.nodes.len(),
        0 <= m < t.nodes.len(),
        under(t, c, m),
        t.nodes[m].vdom_id is Some,
    ensures
        subtree_ids(t, c as int).contains(t.nodes[m].vdom_id->0),
{
    assert(subtree_ids(t, m)[0] == t.nodes[m].vdom_id->0);
    lemma_subtree_ids_cover(t, c, m, t.nodes[m].vdom_id->0);
}

/// A live node that stands neither at nor below the node that was taken
/// out of its place stays live.
pub proof fn lemma_live_stays(before: LiveTreeView, after: LiveTreeView, node: usize, n: int)
    requires
        before.wf(),
        before.nodes.len() <= after.nodes.len(),
        node < before.nodes.len(),
        forall|m: int|
            0 <= m < before.nodes.len() && m != node ==> (#[trigger] after.nodes[m]).parent
                == before.nodes[m].parent,
        after.root == before.root,
        live(before, n),
        !under(before, node, n),
    ensures
        live(after, n),
    decreases n,
{
    if n != before.root {
        assert(before.node_ok(n));
        lemma_live_stays(before, after, node, before.nodes[n].parent->0 as int);
    }
}

/// After the callbacks of a node and of all below it were retired and the
/// node was taken out of its place, every entry that is left belongs to a
/// live node.
pub proof fn lemma_retired_owned(
    before: LiveTreeView,
    after: LiveTreeView,
    node: usize,
    registry: Map<u32, Seq<(Seq<char>, Callback)>>,
)
    requires
        before.wf(),
        before.nodes.len() <= after.nodes.len(),
        node < before.nodes.len(),
        forall|m: int|
            0 <= m < before.nodes.len() && m != node ==> (#[trigger] after.nodes[m]).parent
                == before.nodes[m].parent,
        forall|m: int|
            0 <= m < before.nodes.len() ==> (#[trigger] after.nodes[m]).vdom_id
                == before.nodes[m].vdom_id,
        after.root == before.root || node == before.root,
        owned(before, registry),
        retired(registry, subtree_ids(before, node as int), subtree_ids(before, node as int).len())
            is Some,
    ensures
        owned(
            after,
            retired(
                registry,
                subtree_ids(before, node as int),
                subtree_ids(before, node as int).len(),
            )->0,
        ),
{
    let ids = subtree_ids(before, node as int);
    let kept = retired(registry, ids, ids.len())->0;
    lemma_retired_entries(registry, ids, ids.len());
    assert forall|id: u32| kept.contains_key(id) implies #[trigger] carried_live(after, id) by {
        assert(registry.contains_key(id));
        assert(carried_live(before, id));
        let n = choose|n: int| live(before, n) && before.nodes[n].vdom_id == Some(id);
        if under(before, node, n) {
            lemma_under_is_collected(before, node, n);
            let i = choose|i: int| 0 <= i < ids.len() && ids[i] == id;
            assert(!kept.contains_key(ids[i]));
        }
        lemma_live_stays(before, after, node, n);
        assert(live(after, n) && after.nodes[n].vdom_id == Some(id));
    }
}

/// While the nodes that were there keep their places and identifiers,
/// every entry still belongs to a live node.
pub proof fn lemma_kept_owned(
    t: LiveTreeView,
    u: LiveTreeView,
    registry: Map<u32, Seq<(Seq<char>, Callback)>>,
)
    requires
        t.nodes.len() <= u.nodes.len(),
        t.root == u.root,
        forall|n: int|
            0 <= n < t.nodes.len() ==> (#[trigger] u.nodes[n]).parent == t.nodes[n].parent
                && u.nodes[n].vdom_id == t.nodes[n].vdom_id,
        owned(t, registry),
    ensures
        owned(u, registry),
{
    assert forall|id: u32| registry.contains_key(id) implies #[trigger] carried_live(u, id) by {
        assert(carried_live(t, id));
        let n = choose|n: int| live(t, n) && t.nodes[n].vdom_id == Some(id);
        lemma_under_same(t, u, t.root, n, t.nodes.len() as int);
        assert(live(u, n) && u.nodes[n].vdom_id == Some(id));
    }
}

/// Whether every entry of `after` that `before` lacks belongs to a node at
/// or below `c`.
pub open spec fn entries_carried_under(
    t: LiveTreeView,
    c: usize,
    before: Map<u32, Seq<(Seq<char>, Callback)>>,
    after: Map<u32, Seq<(Seq<char>, Callback)>>,
) -> bool {
    forall|id: u32|
        after.contains_key(id) ==> before.contains_key(id) || #[trigger] carried_under(t, c, id)
}

/// What is carried at or below `c` stays carried there while the nodes
/// below `bound`, but for `c` itself, keep their parents and identifiers.
pub proof fn lemma_carried_under_kept(t: LiveTreeView, u: LiveTreeView, c: usize, bound: int, id: u32)
    requires
        bound <= t.nodes.len() <= u.nodes.len(),
        t.nodes.len() <= bound,
        forall|m: int|
            0 <= m < bound && m != c ==> (#[trigger] u.nodes[m]).parent == t.nodes[m].parent,
        forall|m: int| 0 <= m < bound ==> (#[trigger] u.nodes[m]).vdom_id == t.nodes[m].vdom_id,
        carried_under(t, c, id),
    ensures
        carried_under(u, c, id),
{
    let m = choose|m: int| 0 <= m < t.nodes.len() && under(t, c, m) && t.nodes[m].vdom_id == Some(id);
    lemma_under_kept(t, u, c, m, bound);
    assert(0 <= m < u.nodes.len() && under(u, c, m) && u.nodes[m].vdom_id == Some(id));
}

/// What stands at or below `c` stays there while the nodes below `bound`,
/// but for `c` itself, keep their parents.
pub proof fn lemma_under_kept(t: LiveTreeView, u: LiveTreeView, c: usize, n: int, bound: int)
    requires
        bound <= t.nodes.len(),
        bound <= u.nodes.len(),
        forall|m: int|
            0 <= m < bound && m != c ==> (#[trigger] u.nodes[m]).parent == t.nodes[m].parent,
        0 <= n < bound,
        under(t, c, n),
    ensures
        under(u, c, n),
    decreases n,
{
    if n != c {
        assert(u.nodes[n].parent == t.nodes[n].parent);
        lemma_under_kept(t, u, c, t.nodes[n].parent->0 as int, bound);
    }
}

/// What is carried at or below a child is carried below its parent.
pub proof fn lemma_carried_under_parent(t: LiveTreeView, p: usize, c: usize, id: u32)
    requires
        c < t.nodes.len(),
        t.nodes[c as int].parent == Some(p),
        p < c,
        carried_under(t, c, id),
    ensures
        carried_under(t, p, id),
{
    let m = choose|m: int| 0 <= m < t.nodes.len() && under(t, c, m) && t.nodes[m].vdom_id == Some(id);
    lemma_under_parent(t, p, c, m);
    assert(0 <= m < t.nodes.len() && under(t, p, m) && t.nodes[m].vdom_id == Some(id));
}

/// Whether the nodes of `before` that are live in `after` were live
/// already, and carry the identifiers that they carried.
pub open spec fn lives_kept(before: LiveTreeView, after: LiveTreeView) -> bool {
    forall|n: int|
        0 <= n < before.nodes.len() && live(after, n) ==> live(before, n) && (
        #[trigger] after.nodes[n].vdom_id) == before.nodes[n].vdom_id
}

/// Whether what survives keeps what it had: the nodes of `before` that are
/// live in `after` were live already and carry the identifiers that they
/// carried, and an entry that `registry` holds for one of them is in `kept`
/// with the same callbacks.
pub open spec fn survivors_keep(
    before: LiveTreeView,
    after: LiveTreeView,
    registry: Map<u32, Seq<(Seq<char>, Callback)>>,
    kept: Map<u32, Seq<(Seq<char>, Callback)>>,
) -> bool {
    &&& lives_kept(before, after)
    &&& forall|n: int|
        0 <= n < before.nodes.len() && live(after, n) && (#[trigger] before.nodes[n].vdom_id) is Some
            && registry.contains_key(before.nodes[n].vdom_id->0) ==> kept.contains_key(
            before.nodes[n].vdom_id->0,
        ) && kept[before.nodes[n].vdom_id->0] == registry[before.nodes[n].vdom_id->0]
}

/// While the nodes that were there keep their places and identifiers,
/// those that are live were live.
pub proof fn lemma_lives_kept_in_place(t: LiveTreeView, u: LiveTreeView)
    requires
        t.nodes.len() <= u.nodes.len(),
        t.root == u.root,
        forall|n: int|
            0 <= n < t.nodes.len() ==> (#[trigger] u.nodes[n]).parent == t.nodes[n].parent
                && u.nodes[n].vdom_id == t.nodes[n].vdom_id,
    ensures
        lives_kept(t, u),
{
    assert forall|n: int| 0 <= n < t.nodes.len() && live(u, n) implies live(t, n) && (
    #[trigger] u.nodes[n].vdom_id) == t.nodes[n].vdom_id by {
        lemma_under_same(t, u, t.root, n, t.nodes.len() as int);
        assert(u.nodes[n].vdom_id == t.nodes[n].vdom_id);
    }
}

/// After a node was taken out of its place, the nodes that are live were
/// live.
pub proof fn lemma_lives_kept_detached(before: LiveTreeView, after: LiveTreeView, node: usize)
    requires
        before.wf(),
        before.nodes.len() <= after.nodes.len(),
        node < before.nodes.len(),
        forall|m: int|
            0 <= m < before.nodes.len() && m != node ==> (#[trigger] after.nodes[m]).parent
                == before.nodes[m].parent,
        forall|m: int|
            0 <= m < before.nodes.len() ==> (#[trigger] after.nodes[m]).vdom_id
                == before.nodes[m].vdom_id,
        after.root >= before.nodes.len() || (after.root == before.root && node != before.root
            && after.nodes[node as int].parent is None),
    ensures
        lives_kept(before, after),
{
    assert forall|n: int| 0 <= n < before.nodes.len() && live(after, n) implies live(before, n) && (
    #[trigger] after.nodes[n].vdom_id) == before.nodes[n].vdom_id by {
        lemma_live_after_detach(before, after, node, n);
        assert(after.nodes[n].vdom_id == before.nodes[n].vdom_id);
    }
}

/// After the callbacks of a node and of all below it were retired and the
/// node was taken out of its place, what survives keeps what it had.
pub proof fn lemma_survivors_keep_retired(
    before: LiveTreeView,
    after: LiveTreeView,
    node: usize,
    registry: Map<u32, Seq<(Seq<char>, Callback)>>,
)
    requires
        before.wf(),
        before.nodes.len() <= after.nodes.len(),
        node < before.nodes.len(),
        forall|m: int|
            0 <= m < before.nodes.len() && m != node ==> (#[trigger] after.nodes[m]).parent
                == before.nodes[m].parent,
        forall|m: int|
            0 <= m < before.nodes.len() ==> (#[trigger] after.nodes[m]).vdom_id
                == before.nodes[m].vdom_id,
        after.root >= before.nodes.len() || (after.root == before.root && node != before.root
            && after.nodes[node as int].parent is None),
        retired(registry, subtree_ids(before, node as int), subtree_ids(before, node as int).len())
            is Some,
    ensures
        survivors_keep(
            before,
            after,
            registry,
            retired(
                registry,
                subtree_ids(before, node as int),
                subtree_ids(before, node as int).len(),
            )->0,
        ),
{
    let ids = subtree_ids(before, node as int);
    let kept = retired(registry, ids, ids.len())->0;
    lemma_lives_kept_detached(before, after, node);
    lemma_retired_entries(registry, ids, ids.len());
    assert forall|n: int|
        0 <= n < before.nodes.len() && live(after, n) && (#[trigger] before.nodes[n].vdom_id) is Some
            && registry.contains_key(before.nodes[n].vdom_id->0) implies kept.contains_key(
        before.nodes[n].vdom_id->0,
    ) && kept[before.nodes[n].vdom_id->0] == registry[before.nodes[n].vdom_id->0] by {
        lemma_live_after_detach(before, after, node, n);
        lemma_retire_spares_others(before, registry, node, n);
    }
}

/// What survives two steps keeps what it had before the first.
pub proof fn lemma_survivors_keep_on(
    a: LiveTreeView,
    b: LiveTreeView,
    c: LiveTreeView,
    first: Map<u32, Seq<(Seq<char>, Callback)>>,
    second: Map<u32, Seq<(Seq<char>, Callback)>>,
    third: Map<u32, Seq<(Seq<char>, Callback)>>,
)
    requires
        a.nodes.len() <= b.nodes.len(),
        survivors_keep(a, b, first, second),
        survivors_keep(b, c, second, third),
    ensures
        survivors_keep(a, c, first, third),
{
    assert forall|n: int| 0 <= n < a.nodes.len() && live(c, n) implies live(a, n) && (
    #[trigger] c.nodes[n].vdom_id) == a.nodes[n].vdom_id by {
        assert(c.nodes[n].vdom_id == b.nodes[n].vdom_id);
        assert(b.nodes[n].vdom_id == a.nodes[n].vdom_id);
    }
    assert forall|n: int|
        0 <= n < a.nodes.len() && live(c, n) && (#[trigger] a.nodes[n].vdom_id) is Some
            && first.contains_key(a.nodes[n].vdom_id->0) implies third.contains_key(
        a.nodes[n].vdom_id->0,
    ) && third[a.nodes[n].vdom_id->0] == first[a.nodes[n].vdom_id->0] by {
        assert(c.nodes[n].vdom_id == b.nodes[n].vdom_id);
        assert(b.nodes[n].vdom_id == a.nodes[n].vdom_id);
    }
}

/// Nothing stands below two children of one node.
pub proof fn lemma_under_one_child(t: LiveTreeView, p: usize, a: usize, b: usize, m: int)
    requires
        a < t.nodes.len(),
        b < t.nodes.len(),
        a != b,
        t.nodes[a as int].parent == Some(p),
        t.nodes[b as int].parent == Some(p),
        p < a,
        p < b,
        under(t, a, m),
    ensures
        !under(t, b, m),
    decreases m,
{
    if m == a {
        if under(t, b, m) {
            lemma_under_later(t, b, p as int);
        }
    } else if m == b {
        lemma_under_later(t, a, p as int);
    } else {
        lemma_under_one_child(t, p, a, b, t.nodes[m].parent->0 as int);
    }
}

/// Whether `id` is carried at or below one of the first `k` children of
/// `n`.
pub open spec fn carried_below(t: LiveTreeView, n: int, k: nat, id: u32) -> bool {
    exists|i: int|
        0 <= i < k && i < t.nodes[n].children.len() && #[trigger] carried_under(
            t,
            t.nodes[n].children[i],
            id,
        )
}

/// Whether no item of `ids` occurs twice.
pub open spec fn distinct(ids: Seq<u32>) -> bool {
    forall|i: int, j: int| 0 <= i < j < ids.len() ==> ids[i] != ids[j]
}

/// No identifier is collected twice from a node of a well-formed tree.
pub proof fn lemma_subtree_ids_distinct(t: LiveTreeView, c: int)
    requires
        t.wf(),
        0 <= c < t.nodes.len(),
    ensures
        distinct(subtree_ids(t, c)),
    decreases t.nodes.len() - c, t.nodes[c].children.len() + 1,
{
    let own = own_id(t, c);
    let below = children_ids(t, c, t.nodes[c].children.len());
    lemma_children_ids_distinct(t, c, t.nodes[c].children.len());
    let ids = subtree_ids(t, c);
    assert forall|i: int, j: int| 0 <= i < j < ids.len() implies ids[i] != ids[j] by {
        if i < own.len() {
            assert(ids[j] == below[j - own.len()]);
            assert(carried_below(t, c, t.nodes[c].children.len(), below[j - own.len()]));
            let p = choose|p: int|
                0 <= p < t.nodes[c].children.len() && #[trigger] carried_under(
                    t,
                    t.nodes[c].children[p],
                    ids[j],
                );
            let child = t.nodes[c].children[p];
            let m = choose|m: int|
                0 <= m < t.nodes.len() && under(t, child, m) && t.nodes[m].vdom_id == Some(ids[j]);
            assert(t.node_ok(c));
            lemma_under_later(t, child, m);
            assert(t.nodes[c].vdom_id == Some(ids[i]));
            assert(t.distinct_ids());
        } else {
            assert(ids[i] == below[i - own.len()]);
            assert(ids[j] == below[j - own.len()]);
        }
    }
}

/// No identifier is collected twice from the children of a node of a
/// well-formed tree, and each is carried below one of them.
pub proof fn lemma_children_ids_distinct(t: LiveTreeView, n: int, k: nat)
    requires
        t.wf(),
        0 <= n < t.nodes.len(),
        k <= t.nodes[n].children.len(),
    ensures
        distinct(children_ids(t, n, k)),
        forall|i: int|
            0 <= i < children_ids(t, n, k).len() ==> carried_below(
                t,
                n,
                k,
                #[trigger] children_ids(t, n, k)[i],
            ),
    decreases t.nodes.len() - n, k,
{
    if k > 0 {
        lemma_children_ids_distinct(t, n, (k - 1) as nat);
        let c = t.nodes[n].children[k - 1];
        let before = children_ids(t, n, (k - 1) as nat);
        let last = child_ids(t, n, c);
        let ids = children_ids(t, n, k);
        assert(t.node_ok(n));
        if t.nodes[c as int].kind == NodeKind::Element {
            lemma_subtree_ids_distinct(t, c as int);
            lemma_subtree_ids_under(t, c as int);
        }
        assert forall|i: int| 0 <= i < ids.len() implies carried_below(t, n, k, #[trigger] ids[i]) by {
            if i < before.len() {
                assert(ids[i] == before[i]);
                assert(carried_below(t, n, (k - 1) as nat, before[i]));
                let p = choose|p: int|
                    0 <= p < k - 1 && p < t.nodes[n].children.len() && #[trigger] carried_under(
                        t,
                        t.nodes[n].children[p],
                        before[i],
                    );
                assert(carried_under(t, t.nodes[n].children[p], ids[i]));
            } else {
                assert(ids[i] == last[i - before.len()]);
                assert(last == subtree_ids(t, c as int));
                assert(carried_under(t, t.nodes[n].children[k - 1], ids[i]));
            }
        }
        assert forall|i: int, j: int| 0 <= i < j < ids.len() implies ids[i] != ids[j] by {
            if j < before.len() {
                assert(ids[i] == before[i]);
                assert(ids[j] == before[j]);
            } else if i >= before.len() {
                assert(ids[i] == last[i - before.len()]);
                assert(ids[j] == last[j - before.len()]);
            } else {
                assert(ids[i] == before[i]);
                assert(ids[j] == last[j - before.len()]);
                assert(carried_below(t, n, (k - 1) as nat, before[i]));
                let p = choose|p: int|
                    0 <= p < k - 1 && p < t.nodes[n].children.len() && #[trigger] carried_under(
                        t,
                        t.nodes[n].children[p],
                        before[i],
                    );
                let a = t.nodes[n].children[p];
                let m1 = choose|m: int|
                    0 <= m < t.nodes.len() && under(t, a, m) && t.nodes[m].vdom_id == Some(
                        before[i],
                    );
                assert(last == subtree_ids(t, c as int));
                assert(carried_under(t, c, last[j - before.len()]));
                let m2 = choose|m: int|
                    0 <= m < t.nodes.len() && under(t, c, m) && t.nodes[m].vdom_id == Some(
                        last[j - before.len()],
                    );
                if ids[i] == ids[j] {
                    assert(t.distinct_ids());
                    assert(m1 == m2);
                    assert(a != c);
                    lemma_under_one_child(t, n as usize, a, c, m1);
                }
            }
        }
    }
}

/// The callbacks of a node and of all below it can be retired where every
/// identifier that is carried at or below the node has its entry.
pub proof fn lemma_can_be_retired(
    t: LiveTreeView,
    registry: Map<u32, Seq<(Seq<char>, Callback)>>,
    node: usize,
    k: nat,
)
    requires
        t.wf(),
        node < t.nodes.len(),
        k <= subtree_ids(t, node as int).len(),
        forall|id: u32| #[trigger] carried_under(t, node, id) ==> registry.contains_key(id),
    ensures
        retired(registry, subtree_ids(t, node as int), k) is Some,
    decreases k,
{
    if k > 0 {
        let ids = subtree_ids(t, node as int);
        lemma_can_be_retired(t, registry, node, (k - 1) as nat);
        lemma_retired_entries(registry, ids, (k - 1) as nat);
        lemma_subtree_ids_distinct(t, node as int);
        lemma_subtree_ids_under(t, node as int);
        assert(carried_under(t, node, ids[k - 1]));
        let shorter = ids.take(k - 1);
        if shorter.contains(ids[k - 1]) {
            let j = choose|j: int| 0 <= j < shorter.len() && shorter[j] == ids[k - 1];
            assert(ids[j] == ids[k - 1]);
        }
    }
}

/// What stands at or below `c` stays there when one node that does not
/// changes its parent.
pub proof fn lemma_under_avoiding(t: LiveTreeView, u: LiveTreeView, c: usize, x: usize, n: int)
    requires
        t.nodes.len() == u.nodes.len(),
        forall|m: int|
            0 <= m < t.nodes.len() && m != x ==> (#[trigger] u.nodes[m]).parent == t.nodes[m].parent,
        under(t, c, n),
        !under(t, c, x as int),
    ensures
        under(u, c, n),
    decreases n,
{
    if n != c {
        assert(u.nodes[n].parent == t.nodes[n].parent);
        lemma_under_avoiding(t, u, c, x, t.nodes[n].parent->0 as int);
    }
}

} // verus!
