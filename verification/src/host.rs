//! The primitives through which a live tree is read and changed.
use vstd::prelude::*;
use vstd::string::StringExecFns;
use crate::live::{
    attribute_position, attribute_removed, attribute_set, blank, child_position, is_node,
    lemma_first_where, lemma_first_where_found, named, HostOp, HostOpView, LiveNodeView,
    LiveTreeView, NodeKind,
};
use crate::text::{decimal_string, parse_u32, parsed_u32};
use crate::vdom::Callback;

verus! {

/// A node of the live tree.
#[derive(Debug, PartialEq)]
struct LiveNode {
    kind: NodeKind,
    /// The tag of an element.
    tag: String,
    /// The attributes of an element: names and values, each name once.
    attributes: Vec<(String, String)>,
    /// The identifier under which the element's callbacks are registered.
    vdom_id: Option<u32>,
    /// The content of a text or comment node.
    text: String,
    children: Vec<usize>,
    parent: Option<usize>,
}

impl View for LiveNode {
    type V = LiveNodeView;

    closed spec fn view(&self) -> LiveNodeView {
        LiveNodeView {
            kind: self.kind,
            tag: self.tag@,
            attributes: self.attributes@.map_values(|a: (String, String)| (a.0@, a.1@)),
            vdom_id: self.vdom_id,
            text: self.text@,
            children: self.children@,
            parent: self.parent,
        }
    }
}

/// The live tree.
#[derive(Debug, PartialEq)]
pub struct LiveTree {
    nodes: Vec<LiveNode>,
    root: usize,
    /// The next identifier to hand out to an element with callbacks.
    next_vdom_id: u32,
    /// The host operations made so far, oldest first.
    journal: Vec<HostOp>,
}

impl View for LiveTree {
    type V = LiveTreeView;

    closed spec fn view(&self) -> LiveTreeView {
        LiveTreeView {
            nodes: self.nodes@.map_values(|n: LiveNode| n@),
            root: self.root,
            next_vdom_id: self.next_vdom_id,
            journal: self.journal@.map_values(|o: HostOp| o@),
        }
    }
}

/// Creating a node keeps the tree well formed.
pub proof fn lemma_push_wf(t: LiveTreeView, node: LiveNodeView)
    requires
        t.wf(),
        t.nodes.len() < usize::MAX,
        node.children.len() == 0,
        node.parent is None,
        node.vdom_id is None,
        node.attributes.len() == 0,
    ensures
        (LiveTreeView { nodes: t.nodes.push(node), ..t }).wf(),
{
    let u = LiveTreeView { nodes: t.nodes.push(node), ..t };
    assert forall|n: int| 0 <= n < u.nodes.len() implies #[trigger] u.node_ok(n) by {
        if n < t.nodes.len() {
            assert(t.node_ok(n));
            assert(u.nodes[n] == t.nodes[n]);
            if t.nodes[n].parent is Some {
                let p = t.nodes[n].parent->0;
                assert(u.nodes[p as int] == t.nodes[p as int]);
            }
        }
    }
}

/// Appending a detached, later node to an element, or to a root of
/// another kind, keeps the tree well formed.
pub proof fn lemma_append_child_wf(t: LiveTreeView, parent: usize, child: usize)
    requires
        t.wf(),
        parent < child < t.nodes.len(),
        t.nodes[parent as int].kind == NodeKind::Element || (parent == t.root
            && t.nodes[parent as int].kind == NodeKind::Other),
        t.nodes[child as int].parent is None,
        child != t.root,
    ensures
        t.append_child(parent, child).wf(),
{
    let u = t.append_child(parent, child);
    let pc = t.nodes[parent as int].children;
    assert(u.nodes[parent as int].children == pc.push(child));
    assert(t.node_ok(parent as int));
    assert forall|n: int| 0 <= n < u.nodes.len() implies #[trigger] u.node_ok(n) by {
        assert(t.node_ok(n));
        let node = u.nodes[n];
        assert forall|i: int| 0 <= i < node.children.len() implies n < (
        #[trigger] node.children[i]) < u.nodes.len() && u.nodes[node.children[i] as int].parent
            == Some(n as usize) by {
            if n == parent && i == pc.len() {
            } else {
                assert(node.children[i] == t.nodes[n].children[i]);
                assert(t.nodes[n].children[i] != child);
            }
        }
        assert forall|i: int, j: int| 0 <= i < j < node.children.len() implies (
        #[trigger] node.children[i]) != (#[trigger] node.children[j]) by {
            assert(node.children[i] == t.nodes[n].children[i]);
            if n == parent && j == pc.len() {
                assert(t.nodes[pc[i] as int].parent == Some(parent));
            } else {
                assert(node.children[j] == t.nodes[n].children[j]);
            }
        }
        if node.parent is Some {
            if n == child {
                assert(pc.push(child)[pc.len() as int] == child);
            } else {
                let q = t.nodes[n].parent->0;
                let w = choose|w: int|
                    0 <= w < t.nodes[q as int].children.len() && t.nodes[q as int].children[w]
                        == n as usize;
                if q == parent {
                    assert(pc.push(child)[w] == n);
                } else {
                    assert(u.nodes[q as int].children == t.nodes[q as int].children);
                    assert(u.nodes[q as int].children[w] == n);
                }
            }
        }
    }
    assert(u.distinct_ids()) by {
        assert forall|n: int| 0 <= n < u.nodes.len() implies #[trigger] u.nodes[n].vdom_id
            == t.nodes[n].vdom_id by {}
    }
}

/// Removing a child keeps the tree well formed.
pub proof fn lemma_remove_child_wf(t: LiveTreeView, parent: usize, child: usize)
    requires
        t.wf(),
        parent < t.nodes.len(),
        child < t.nodes.len(),
    ensures
        t.remove_child(parent, child).wf(),
{
    let u = t.remove_child(parent, child);
    let pc = t.nodes[parent as int].children;
    let at = child_position(pc, child);
    lemma_first_where_found(pc, is_node(child));
    assert(t.node_ok(parent as int));
    if at < pc.len() {
        assert(pc[at] == child);
        assert(t.nodes[child as int].parent == Some(parent));
        assert(u.nodes[parent as int].children == pc.remove(at));
        assert forall|n: int| 0 <= n < u.nodes.len() implies #[trigger] u.node_ok(n) by {
            assert(t.node_ok(n));
            let node = u.nodes[n];
            assert forall|i: int| 0 <= i < node.children.len() implies n < (
            #[trigger] node.children[i]) < u.nodes.len() && u.nodes[node.children[i] as int].parent
                == Some(n as usize) by {
                if n == parent {
                    let k = if i < at {
                        i
                    } else {
                        i + 1
                    };
                    assert(node.children[i] == pc[k]);
                    assert(pc[k] != child);
                } else {
                    assert(node.children[i] == t.nodes[n].children[i]);
                    assert(t.nodes[t.nodes[n].children[i] as int].parent == Some(n as usize));
                }
            }
            assert forall|i: int, j: int| 0 <= i < j < node.children.len() implies (
            #[trigger] node.children[i]) != (#[trigger] node.children[j]) by {
                if n == parent {
                    let ki = if i < at {
                        i
                    } else {
                        i + 1
                    };
                    let kj = if j < at {
                        j
                    } else {
                        j + 1
                    };
                    assert(node.children[i] == pc[ki]);
                    assert(node.children[j] == pc[kj]);
                } else {
                    assert(node.children[i] == t.nodes[n].children[i]);
                    assert(node.children[j] == t.nodes[n].children[j]);
                }
            }
            if node.parent is Some {
                let q = t.nodes[n].parent->0;
                let w = choose|w: int|
                    0 <= w < t.nodes[q as int].children.len() && t.nodes[q as int].children[w]
                        == n as usize;
                if q == parent {
                    if w < at {
                        assert(pc.remove(at)[w] == n);
                    } else {
                        assert(pc.remove(at)[w - 1] == n);
                    }
                } else {
                    assert(u.nodes[q as int].children == t.nodes[q as int].children);
                    assert(u.nodes[q as int].children[w] == n);
                }
            }
        }
        assert(u.distinct_ids()) by {
            assert forall|n: int| 0 <= n < u.nodes.len() implies #[trigger] u.nodes[n].vdom_id
                == t.nodes[n].vdom_id by {}
        }
    } else {
        lemma_logged_wf(t, HostOpView::RemoveChild { parent, child });
    }
}

/// Putting a detached, later node in the place of another keeps the tree
/// well formed.
pub proof fn lemma_replace_with_wf(t: LiveTreeView, node: usize, replacement: usize)
    requires
        t.wf(),
        node < t.nodes.len(),
        replacement < t.nodes.len(),
        replacement != node,
        replacement != t.root,
        t.nodes[replacement as int].parent is None,
        t.nodes[node as int].kind != NodeKind::Other,
        t.nodes[node as int].parent is Some ==> t.nodes[node as int].parent->0 < replacement,
    ensures
        t.replace_with(node, replacement).wf(),
{
    let u = t.replace_with(node, replacement);
    let op = HostOpView::ReplaceWith { node, replacement };
    assert(t.node_ok(node as int));
    if node == t.root {
        assert(u.nodes == t.nodes);
        assert forall|n: int| 0 <= n < u.nodes.len() implies #[trigger] u.node_ok(n) by {
            assert(t.node_ok(n));
        }
    } else if t.nodes[node as int].parent is Some {
        let parent = t.nodes[node as int].parent->0;
        let pc = t.nodes[parent as int].children;
        let at = child_position(pc, node);
        lemma_first_where_found(pc, is_node(node));
        let w0 = choose|w: int| 0 <= w < pc.len() && pc[w] == node;
        assert(pc.contains(node));
        if at >= pc.len() {
            assert(!is_node(node)(pc[w0]));
        }
        assert(pc[at] == node);
        assert(t.node_ok(parent as int));
        assert(u.nodes[parent as int].children == pc.update(at, replacement));
        assert forall|n: int| 0 <= n < u.nodes.len() implies #[trigger] u.node_ok(n) by {
            assert(t.node_ok(n));
            let x = u.nodes[n];
            assert forall|i: int| 0 <= i < x.children.len() implies n < (
            #[trigger] x.children[i]) < u.nodes.len() && u.nodes[x.children[i] as int].parent
                == Some(n as usize) by {
                if n == parent {
                    if i != at {
                        assert(x.children[i] == pc[i]);
                        assert(t.nodes[pc[i] as int].parent == Some(parent));
                        assert(pc[i] != pc[at]);
                    }
                } else {
                    let c = t.nodes[n].children[i];
                    assert(x.children[i] == c);
                    assert(t.nodes[c as int].parent == Some(n as usize));
                }
            }
            assert forall|i: int, j: int| 0 <= i < j < x.children.len() implies (
            #[trigger] x.children[i]) != (#[trigger] x.children[j]) by {
                if n == parent {
                    if i != at {
                        assert(x.children[i] == pc[i]);
                        assert(t.nodes[pc[i] as int].parent == Some(parent));
                    }
                    if j != at {
                        assert(x.children[j] == pc[j]);
                        assert(t.nodes[pc[j] as int].parent == Some(parent));
                    }
                } else {
                    assert(x.children[i] == t.nodes[n].children[i]);
                    assert(x.children[j] == t.nodes[n].children[j]);
                }
            }
            if x.parent is Some {
                if n == replacement {
                    assert(pc.update(at, replacement)[at] == replacement);
                } else {
                    let q = t.nodes[n].parent->0;
                    let w = choose|w: int|
                    0 <= w < t.nodes[q as int].children.len() && t.nodes[q as int].children[w]
                        == n as usize;
                    if q == parent {
                        assert(pc.update(at, replacement)[w] == n);
                    } else {
                        assert(u.nodes[q as int].children == t.nodes[q as int].children);
                        assert(u.nodes[q as int].children[w] == n);
                    }
                }
            }
        }
        assert(u.distinct_ids()) by {
            assert forall|n: int| 0 <= n < u.nodes.len() implies #[trigger] u.nodes[n].vdom_id
                == t.nodes[n].vdom_id by {}
        }
    } else {
        lemma_logged_wf(t, op);
    }
}

/// A tree in which every node kept its children, its parent and its kind,
/// and in which only elements carry attributes and identifiers that were
/// handed out, has well-formed nodes.
pub proof fn lemma_links_kept(t: LiveTreeView, u: LiveTreeView)
    requires
        t.wf(),
        u.nodes.len() == t.nodes.len(),
        u.root == t.root,
        forall|n: int|
            0 <= n < t.nodes.len() ==> (#[trigger] u.nodes[n]).children == t.nodes[n].children
                && u.nodes[n].parent == t.nodes[n].parent && u.nodes[n].kind == t.nodes[n].kind,
        forall|n: int|
            0 <= n < t.nodes.len() && (#[trigger] u.nodes[n]).kind != NodeKind::Element
                ==> u.nodes[n].vdom_id is None && u.nodes[n].attributes.len() == 0,
        forall|n: int|
            0 <= n < t.nodes.len() && (#[trigger] u.nodes[n]).vdom_id is Some
                ==> u.nodes[n].vdom_id->0 < u.next_vdom_id,
    ensures
        u.root < u.nodes.len() <= usize::MAX,
        u.nodes[u.root as int].parent is None,
        forall|n: int| 0 <= n < u.nodes.len() ==> #[trigger] u.node_ok(n),
{
    assert forall|n: int| 0 <= n < u.nodes.len() implies #[trigger] u.node_ok(n) by {
        assert(t.node_ok(n));
        let x = u.nodes[n];
        assert(x.children == t.nodes[n].children);
        assert forall|i: int| 0 <= i < x.children.len() implies n < (
        #[trigger] x.children[i]) < u.nodes.len() && u.nodes[x.children[i] as int].parent == Some(
            n as usize,
        ) by {
            let c = t.nodes[n].children[i];
            assert(u.nodes[c as int].parent == t.nodes[c as int].parent);
        }
        if x.parent is Some {
            let q = t.nodes[n].parent->0;
            assert(u.nodes[q as int].children == t.nodes[q as int].children);
        }
    }
}

/// A tree in which every node kept its identifier has distinct
/// identifiers.
pub proof fn lemma_ids_kept(t: LiveTreeView, u: LiveTreeView)
    requires
        t.distinct_ids(),
        u.nodes.len() == t.nodes.len(),
        forall|n: int| 0 <= n < t.nodes.len() ==> (#[trigger] u.nodes[n]).vdom_id == t.nodes[n].vdom_id,
    ensures
        u.distinct_ids(),
{
    assert forall|n: int| 0 <= n < u.nodes.len() implies #[trigger] u.nodes[n].vdom_id
        == t.nodes[n].vdom_id by {
        assert(u.nodes[n].vdom_id == t.nodes[n].vdom_id);
    }
}

/// Changing the attributes or the text of a node keeps the tree well
/// formed.
pub proof fn lemma_content_wf(t: LiveTreeView, node: usize, changed: LiveNodeView)
    requires
        t.wf(),
        node < t.nodes.len(),
        changed.kind == t.nodes[node as int].kind,
        changed.children == t.nodes[node as int].children,
        changed.parent == t.nodes[node as int].parent,
        changed.vdom_id == t.nodes[node as int].vdom_id,
        changed.kind != NodeKind::Element ==> changed.attributes.len() == 0,
    ensures
        t.with_node(node as int, changed).wf(),
{
    let u = t.with_node(node as int, changed);
    assert forall|n: int| 0 <= n < t.nodes.len() implies #[trigger] t.node_ok(n) by {}
    assert forall|n: int| 0 <= n < t.nodes.len() implies (#[trigger] u.nodes[n]).vdom_id
        == t.nodes[n].vdom_id && (u.nodes[n].kind != NodeKind::Element ==> u.nodes[n].vdom_id is None
        && u.nodes[n].attributes.len() == 0) && (u.nodes[n].vdom_id is Some
        ==> u.nodes[n].vdom_id->0 < u.next_vdom_id) by {
        assert(t.node_ok(n));
    }
    lemma_links_kept(t, u);
    lemma_ids_kept(t, u);
}

/// Handing the next identifier to an element keeps the tree well formed.
pub proof fn lemma_assign_vdom_id_wf(t: LiveTreeView, node: usize)
    requires
        t.wf(),
        node < t.nodes.len(),
        t.nodes[node as int].kind == NodeKind::Element,
        t.next_vdom_id < u32::MAX,
    ensures
        t.assign_vdom_id(node).wf(),
{
    assert forall|n: int| 0 <= n < t.nodes.len() implies (#[trigger] t.nodes[n].vdom_id) != Some(
        t.next_vdom_id,
    ) by {
        assert(t.node_ok(n));
    }
    lemma_adopt_vdom_id_wf(t, node, t.next_vdom_id);
    assert(t.assign_vdom_id(node).nodes == t.adopt_vdom_id(node, t.next_vdom_id).nodes);
    lemma_journal_wf(t.adopt_vdom_id(node, t.next_vdom_id), t.assign_vdom_id(node));
}

/// Taking over an identifier that no node carries keeps the tree well
/// formed.
pub proof fn lemma_adopt_vdom_id_wf(t: LiveTreeView, node: usize, id: u32)
    requires
        t.wf(),
        node < t.nodes.len(),
        t.nodes[node as int].kind == NodeKind::Element,
        id < u32::MAX,
        !t.uses_vdom_id(id),
    ensures
        t.adopt_vdom_id(node, id).wf(),
{
    let u = t.adopt_vdom_id(node, id);
    assert forall|n: int| 0 <= n < t.nodes.len() implies ((#[trigger] u.nodes[n]).kind
        != NodeKind::Element ==> u.nodes[n].vdom_id is None && u.nodes[n].attributes.len() == 0)
        && (u.nodes[n].vdom_id is Some ==> u.nodes[n].vdom_id->0 < u.next_vdom_id) by {
        assert(t.node_ok(n));
    }
    lemma_links_kept(t, u);
    assert forall|n: int, m: int|
        0 <= n < u.nodes.len() && 0 <= m < u.nodes.len() && n != m && (
        #[trigger] u.nodes[n].vdom_id) is Some implies u.nodes[n].vdom_id != (
    #[trigger] u.nodes[m].vdom_id) by {
        if n != node {
            assert(u.nodes[n].vdom_id == t.nodes[n].vdom_id);
        }
        if m != node {
            assert(u.nodes[m].vdom_id == t.nodes[m].vdom_id);
        }
    }
}

/// A tree that differs from a well-formed one in its journal alone is
/// well formed.
pub proof fn lemma_journal_wf(t: LiveTreeView, u: LiveTreeView)
    requires
        t.wf(),
        u.nodes == t.nodes,
        u.root == t.root,
        u.next_vdom_id == t.next_vdom_id,
    ensures
        u.wf(),
{
    assert forall|n: int| 0 <= n < t.nodes.len() implies ((#[trigger] u.nodes[n]).kind
        != NodeKind::Element ==> u.nodes[n].vdom_id is None && u.nodes[n].attributes.len() == 0)
        && (u.nodes[n].vdom_id is Some ==> u.nodes[n].vdom_id->0 < u.next_vdom_id) by {
        assert(t.node_ok(n));
    }
    lemma_links_kept(t, u);
    lemma_ids_kept(t, u);
}

/// Recording an operation keeps the tree well formed.
pub proof fn lemma_logged_wf(t: LiveTreeView, op: HostOpView)
    requires
        t.wf(),
    ensures
        t.logged(op).wf(),
{
    lemma_journal_wf(t, t.logged(op));
}

/// Recording operations keeps the tree well formed.
pub proof fn lemma_journaled_wf(t: LiveTreeView, ops: Seq<HostOpView>)
    requires
        t.wf(),
    ensures
        t.journaled(ops).wf(),
{
    lemma_journal_wf(t, t.journaled(ops));
}

impl LiveTree {
    /// A tree that holds a root of the given kind and nothing else. For an
    /// element `content` is the tag, for text and comments the text.
    pub fn new(kind: NodeKind, content: &str) -> (tree: LiveTree)
        ensures
            tree@.wf(),
            tree@.root == 0,
            tree@.next_vdom_id == 0,
            tree@.journal.len() == 0,
            tree@.nodes.len() == 1,
            tree@.nodes[0] == (if kind == NodeKind::Element {
                blank(kind, content@, Seq::empty())
            } else {
                blank(kind, Seq::empty(), content@)
            }),
    {
        let is_element = match kind {
            NodeKind::Element => true,
            _ => false,
        };
        let node = if is_element {
            LiveNode {
                kind,
                tag: String::from_str(content),
                attributes: Vec::new(),
                vdom_id: None,
                text: String::new(),
                children: Vec::new(),
                parent: None,
            }
        } else {
            LiveNode {
                kind,
                tag: String::new(),
                attributes: Vec::new(),
                vdom_id: None,
                text: String::from_str(content),
                children: Vec::new(),
                parent: None,
            }
        };
        proof {
            assert(node@.attributes =~= Seq::empty());
        }
        let mut nodes = Vec::new();
        nodes.push(node);
        let tree = LiveTree { nodes, root: 0, next_vdom_id: 0, journal: Vec::new() };
        proof {
            assert(tree@.nodes.len() == 1);
            assert(tree@.node_ok(0));
        }
        tree
    }

    /// The number of nodes that were ever created in the tree.
    pub fn len(&self) -> (n: usize)
        ensures
            n == self@.nodes.len(),
    {
        self.nodes.len()
    }

    /// The root of the tree.
    pub fn root(&self) -> (n: usize)
        ensures
            n == self@.root,
    {
        self.root
    }

    /// The kind of `node`.
    pub fn kind(&self, node: usize) -> (kind: NodeKind)
        requires
            node < self@.nodes.len(),
        ensures
            kind == self@.nodes[node as int].kind,
    {
        self.nodes[node].kind
    }

    /// The node that holds `node` as a child, if one does.
    pub fn parent(&self, node: usize) -> (parent: Option<usize>)
        requires
            node < self@.nodes.len(),
        ensures
            parent == self@.nodes[node as int].parent,
    {
        self.nodes[node].parent
    }

    /// The identifier under which the callbacks of `node` are registered.
    pub fn vdom_id(&self, node: usize) -> (id: Option<u32>)
        requires
            node < self@.nodes.len(),
        ensures
            id == self@.nodes[node as int].vdom_id,
    {
        self.nodes[node].vdom_id
    }

    /// The number of children of `node`, comments included.
    pub fn child_count(&self, node: usize) -> (count: usize)
        requires
            node < self@.nodes.len(),
        ensures
            count == self@.nodes[node as int].children.len(),
    {
        self.nodes[node].children.len()
    }

    /// The child of `node` at position `i`.
    pub fn child_at(&self, node: usize, i: usize) -> (child: usize)
        requires
            node < self@.nodes.len(),
            i < self@.nodes[node as int].children.len(),
        ensures
            child == self@.nodes[node as int].children[i as int],
    {
        self.nodes[node].children[i]
    }

    /// The last child of `node`, if it has children.
    pub fn last_child(&self, node: usize) -> (child: Option<usize>)
        requires
            node < self@.nodes.len(),
        ensures
            child == (if self@.nodes[node as int].children.len() == 0 {
                None
            } else {
                Some(self@.nodes[node as int].children.last())
            }),
    {
        let count = self.nodes[node].children.len();
        if count == 0 {
            None
        } else {
            Some(self.nodes[node].children[count - 1])
        }
    }

    /// The tag of the element `node`.
    pub fn tag(&self, node: usize) -> (tag: &String)
        requires
            node < self@.nodes.len(),
        ensures
            tag@ == self@.nodes[node as int].tag,
    {
        &self.nodes[node].tag
    }

    /// The content of the text node or comment `node`.
    pub fn text(&self, node: usize) -> (text: &String)
        requires
            node < self@.nodes.len(),
        ensures
            text@ == self@.nodes[node as int].text,
    {
        &self.nodes[node].text
    }

    /// The position of attribute `name` among the attributes of `node`, or
    /// their number where it has none of that name.
    fn attribute_at(&self, node: usize, name: &str) -> (at: usize)
        requires
            node < self@.nodes.len(),
        ensures
            at == attribute_position(self@.nodes[node as int].attributes, name@),
            at <= self@.nodes[node as int].attributes.len(),
            at <= self.nodes@[node as int].attributes@.len(),
    {
        let attrs = &self.nodes[node].attributes;
        let wanted = String::from_str(name);
        let ghost view = self@.nodes[node as int].attributes;
        let mut at: usize = 0;
        while at < attrs.len() && attrs[at].0 != wanted
            invariant
                at <= attrs.len(),
                wanted@ == name@,
                view == attrs@.map_values(|a: (String, String)| (a.0@, a.1@)),
                forall|k: int| 0 <= k < at ==> !named(name@)(#[trigger] view[k]),
            decreases attrs.len() - at,
        {
            assert(view[at as int] == (attrs@[at as int].0@, attrs@[at as int].1@));
            at = at + 1;
        }
        proof {
            if at < attrs.len() {
                assert(view[at as int] == (attrs@[at as int].0@, attrs@[at as int].1@));
            }
            lemma_first_where(view, named(name@), at as int);
        }
        at
    }

    /// The position of `child` among the children of `parent`, or their
    /// number where it is none of them.
    fn child_at_position(&self, parent: usize, child: usize) -> (at: usize)
        requires
            parent < self@.nodes.len(),
        ensures
            at == child_position(self@.nodes[parent as int].children, child),
            at <= self@.nodes[parent as int].children.len(),
    {
        let children = &self.nodes[parent].children;
        let mut at: usize = 0;
        while at < children.len() && children[at] != child
            invariant
                at <= children.len(),
                forall|k: int| 0 <= k < at ==> !is_node(child)(#[trigger] children@[k]),
            decreases children.len() - at,
        {
            at = at + 1;
        }
        proof {
            lemma_first_where(children@, is_node(child), at as int);
        }
        at
    }

    /// The value of attribute `name` of `node`, if it has one.
    pub fn attribute(&self, node: usize, name: &str) -> (value: Option<&String>)
        requires
            node < self@.nodes.len(),
        ensures
            ({
                let attrs = self@.nodes[node as int].attributes;
                let at = attribute_position(attrs, name@);
                match value {
                    Some(v) => at < attrs.len() && v@ == attrs[at].1,
                    None => at == attrs.len(),
                }
            }),
    {
        let at = self.attribute_at(node, name);
        if at < self.nodes[node].attributes.len() {
            Some(&self.nodes[node].attributes[at].1)
        } else {
            None
        }
    }

    /// The attributes of `node`: names and values in the order in which
    /// the names were first set.
    pub fn attributes(&self, node: usize) -> (attributes: &Vec<(String, String)>)
        requires
            node < self@.nodes.len(),
        ensures
            attributes@.map_values(|a: (String, String)| (a.0@, a.1@))
                == self@.nodes[node as int].attributes,
    {
        &self.nodes[node].attributes
    }

    /// The identifier that the next element with callbacks gets.
    pub fn next_vdom_id(&self) -> (id: u32)
        ensures
            id == self@.next_vdom_id,
    {
        self.next_vdom_id
    }

    /// The operations recorded so far.
    pub fn journal(&self) -> (ops: &Vec<HostOp>)
        ensures
            ops@.map_values(|o: HostOp| o@) == self@.journal,
    {
        &self.journal
    }

    /// Hands out the recorded operations and empties the journal.
    pub fn take_journal(&mut self) -> (ops: Vec<HostOp>)
        ensures
            ops@.map_values(|o: HostOp| o@) == old(self)@.journal,
            final(self)@ == (LiveTreeView { journal: Seq::empty(), ..old(self)@ }),
            old(self)@.wf() ==> final(self)@.wf(),
    {
        let mut ops = Vec::new();
        std::mem::swap(&mut self.journal, &mut ops);
        proof {
            assert(self@.journal =~= Seq::empty());
            if old(self)@.wf() {
                assert forall|n: int| 0 <= n < self@.nodes.len() implies #[trigger] self@.node_ok(
                    n,
                ) by {
                    assert(old(self)@.node_ok(n));
                }
            }
        }
        ops
    }

    /// Records `op` without any change to the nodes.
    fn log(&mut self, op: HostOp)
        ensures
            final(self)@ == old(self)@.logged(op@),
            old(self)@.wf() ==> final(self)@.wf(),
    {
        self.journal.push(op);
        proof {
            assert(self@.journal =~= old(self)@.journal.push(op@));
            if old(self)@.wf() {
                lemma_logged_wf(old(self)@, op@);
            }
        }
    }

    /// Adds `node` at the end of the arena and records `op`.
    fn allocate(&mut self, node: LiveNode, op: HostOp) -> (id: usize)
        requires
            old(self)@.wf(),
            node@.children.len() == 0,
            node@.parent is None,
            node@.vdom_id is None,
            node@.attributes.len() == 0,
        ensures
            id == old(self)@.nodes.len(),
            final(self)@ == (LiveTreeView {
                nodes: old(self)@.nodes.push(node@),
                ..old(self)@
            }).logged(op@),
            final(self)@.wf(),
    {
        let id = self.nodes.len();
        self.nodes.push(node);
        // The length of a vector fits in `usize`, so the arena was not full.
        let _length = self.nodes.len();
        self.journal.push(op);
        proof {
            let pushed = LiveTreeView { nodes: old(self)@.nodes.push(node@), ..old(self)@ };
            assert(self@.nodes =~= pushed.nodes);
            assert(self@.journal =~= old(self)@.journal.push(op@));
            lemma_push_wf(old(self)@, node@);
            lemma_logged_wf(pushed, op@);
        }
        id
    }

    /// Adds a detached node that the host holds already; nothing is asked
    /// of the host. For an element `content` is the tag, else the text.
    pub fn adopt(&mut self, kind: NodeKind, content: &str) -> (id: usize)
        requires
            old(self)@.wf(),
        ensures
            id == old(self)@.nodes.len(),
            final(self)@ == old(self)@.adopt(kind, content@),
            final(self)@.wf(),
    {
        let is_element = match kind {
            NodeKind::Element => true,
            _ => false,
        };
        let node = if is_element {
            LiveNode {
                kind,
                tag: String::from_str(content),
                attributes: Vec::new(),
                vdom_id: None,
                text: String::new(),
                children: Vec::new(),
                parent: None,
            }
        } else {
            LiveNode {
                kind,
                tag: String::new(),
                attributes: Vec::new(),
                vdom_id: None,
                text: String::from_str(content),
                children: Vec::new(),
                parent: None,
            }
        };
        proof {
            assert(node@.attributes =~= Seq::empty());
        }
        let id = self.nodes.len();
        self.nodes.push(node);
        // The length of a vector fits in `usize`, so the arena was not full.
        let _length = self.nodes.len();
        proof {
            assert(self@.nodes =~= old(self)@.adopt(kind, content@).nodes);
            lemma_push_wf(old(self)@, node@);
        }
        id
    }

    /// Takes over, for the element `node`, the identifier `id` that the
    /// host holds for it already. Nothing is done, and `false` returned,
    /// where `node` is no element, where another node carries `id`, or where
    /// no identifier could follow `id`.
    pub fn adopt_vdom_id(&mut self, node: usize, id: u32) -> (adopted: bool)
        requires
            old(self)@.wf(),
            node < old(self)@.nodes.len(),
        ensures
            adopted == (old(self)@.nodes[node as int].kind == NodeKind::Element && id < u32::MAX
                && !old(self)@.uses_vdom_id(id)),
            final(self)@ == (if adopted {
                old(self)@.adopt_vdom_id(node, id)
            } else {
                old(self)@
            }),
            final(self)@.wf(),
    {
        match self.nodes[node].kind {
            NodeKind::Element => {},
            _ => {
                return false;
            },
        }
        if id == u32::MAX {
            return false;
        }
        let mut n: usize = 0;
        while n < self.nodes.len()
            invariant
                n <= self.nodes.len(),
                *self == *old(self),
                self@.wf(),
                node < self@.nodes.len(),
                forall|m: int| 0 <= m < n ==> (#[trigger] self@.nodes[m].vdom_id) != Some(id),
            decreases self.nodes.len() - n,
        {
            match self.nodes[n].vdom_id {
                Some(used) => {
                    if used == id {
                        proof {
                            assert(self@.nodes[n as int].vdom_id == Some(id));
                        }
                        return false;
                    }
                },
                None => {},
            }
            n = n + 1;
        }
        self.nodes[node].vdom_id = Some(id);
        if id >= self.next_vdom_id {
            self.next_vdom_id = id + 1;
        }
        proof {
            let expected = old(self)@.adopt_vdom_id(node, id);
            assert(self@.nodes[node as int] == expected.nodes[node as int]);
            assert(self@.nodes =~= expected.nodes);
            assert(self@.journal =~= expected.journal);
            lemma_adopt_vdom_id_wf(old(self)@, node, id);
        }
        true
    }

    /// Creates a detached element.
    pub fn create_element(&mut self, tag: &str) -> (id: usize)
        requires
            old(self)@.wf(),
        ensures
            id == old(self)@.nodes.len(),
            final(self)@ == old(self)@.create_element(tag@),
            final(self)@.wf(),
    {
        let node = LiveNode {
            kind: NodeKind::Element,
            tag: String::from_str(tag),
            attributes: Vec::new(),
            vdom_id: None,
            text: String::new(),
            children: Vec::new(),
            parent: None,
        };
        proof {
            assert(node@.attributes =~= Seq::empty());
        }
        let id = self.nodes.len();
        self.allocate(node, HostOp::CreateElement { node: id, tag: String::from_str(tag) })
    }

    /// Creates a detached text node.
    pub fn create_text(&mut self, text: &str) -> (id: usize)
        requires
            old(self)@.wf(),
        ensures
            id == old(self)@.nodes.len(),
            final(self)@ == old(self)@.create_text(text@),
            final(self)@.wf(),
    {
        let node = LiveNode {
            kind: NodeKind::Text,
            tag: String::new(),
            attributes: Vec::new(),
            vdom_id: None,
            text: String::from_str(text),
            children: Vec::new(),
            parent: None,
        };
        proof {
            assert(node@.attributes =~= Seq::empty());
        }
        let id = self.nodes.len();
        self.allocate(node, HostOp::CreateText { node: id, text: String::from_str(text) })
    }

    /// Creates a detached comment.
    pub fn create_comment(&mut self, text: &str) -> (id: usize)
        requires
            old(self)@.wf(),
        ensures
            id == old(self)@.nodes.len(),
            final(self)@ == old(self)@.create_comment(text@),
            final(self)@.wf(),
    {
        let node = LiveNode {
            kind: NodeKind::Comment,
            tag: String::new(),
            attributes: Vec::new(),
            vdom_id: None,
            text: String::from_str(text),
            children: Vec::new(),
            parent: None,
        };
        proof {
            assert(node@.attributes =~= Seq::empty());
        }
        let id = self.nodes.len();
        self.allocate(node, HostOp::CreateComment { node: id, text: String::from_str(text) })
    }

    /// Makes the detached node `child` the last child of `parent`, which
    /// was created before it and is an element, or the root where that is of
    /// another kind.
    pub fn append_child(&mut self, parent: usize, child: usize)
        requires
            old(self)@.wf(),
            parent < child < old(self)@.nodes.len(),
            old(self)@.nodes[parent as int].kind == NodeKind::Element || (parent
                == old(self)@.root && old(self)@.nodes[parent as int].kind == NodeKind::Other),
            old(self)@.nodes[child as int].parent is None,
            child != old(self)@.root,
        ensures
            final(self)@ == old(self)@.append_child(parent, child),
            final(self)@.wf(),
    {
        self.nodes[parent].children.push(child);
        self.nodes[child].parent = Some(parent);
        self.journal.push(HostOp::AppendChild { parent, child });
        proof {
            let expected = old(self)@.append_child(parent, child);
            assert(self@.nodes[parent as int] == expected.nodes[parent as int]);
            assert(self@.nodes[child as int] == expected.nodes[child as int]);
            assert(self@.nodes =~= expected.nodes);
            assert(self@.journal =~= expected.journal);
            lemma_append_child_wf(old(self)@, parent, child);
        }
    }

    /// Takes `child` out of the children of `parent`.
    pub fn remove_child(&mut self, parent: usize, child: usize)
        requires
            old(self)@.wf(),
            parent < old(self)@.nodes.len(),
            child < old(self)@.nodes.len(),
        ensures
            final(self)@ == old(self)@.remove_child(parent, child),
            final(self)@.wf(),
    {
        let ghost children = old(self)@.nodes[parent as int].children;
        let count = self.nodes[parent].children.len();
        let at = self.child_at_position(parent, child);
        proof {
            lemma_first_where_found(children, is_node(child));
        }
        if at < count {
            self.nodes[parent].children.remove(at);
            proof {
                assert(old(self)@.node_ok(parent as int));
                assert(children[at as int] == child);
                assert(child != parent);
            }
            self.nodes[child].parent = None;
        }
        self.journal.push(HostOp::RemoveChild { parent, child });
        proof {
            let expected = old(self)@.remove_child(parent, child);
            assert(self@.nodes[parent as int] == expected.nodes[parent as int]);
            assert(self@.nodes[child as int] == expected.nodes[child as int]);
            assert(self@.nodes =~= expected.nodes);
            assert(self@.journal =~= expected.journal);
            lemma_remove_child_wf(old(self)@, parent, child);
        }
    }

    /// Puts the detached node `replacement` in the place of `node`.
    pub fn replace_with(&mut self, node: usize, replacement: usize)
        requires
            old(self)@.wf(),
            node < old(self)@.nodes.len(),
            replacement < old(self)@.nodes.len(),
            replacement != node,
            replacement != old(self)@.root,
            old(self)@.nodes[replacement as int].parent is None,
            old(self)@.nodes[node as int].kind != NodeKind::Other,
            old(self)@.nodes[node as int].parent is Some ==> old(self)@.nodes[node as int].parent->0
                < replacement,
        ensures
            final(self)@ == old(self)@.replace_with(node, replacement),
            final(self)@.wf(),
    {
        if node == self.root {
            self.root = replacement;
        } else {
            match self.nodes[node].parent {
                Some(parent) => {
                    proof {
                        assert(old(self)@.node_ok(node as int));
                        assert(old(self)@.node_ok(parent as int));
                    }
                    let ghost children = old(self)@.nodes[parent as int].children;
                    let count = self.nodes[parent].children.len();
                    let at = self.child_at_position(parent, node);
                    proof {
                        lemma_first_where_found(children, is_node(node));
                        if at == count {
                            let w = choose|w: int| 0 <= w < children.len() && children[w] == node;
                            assert(!is_node(node)(children[w]));
                        }
                    }
                    self.nodes[parent].children.set(at, replacement);
                    self.nodes[node].parent = None;
                    self.nodes[replacement].parent = Some(parent);
                    proof {
                        let expected = old(self)@.replace_with(node, replacement);
                        assert(self@.nodes[parent as int] == expected.nodes[parent as int]);
                        assert(self@.nodes[node as int] == expected.nodes[node as int]);
                        assert(self@.nodes[replacement as int] == expected.nodes[replacement as int]);
                        assert(self@.nodes =~= expected.nodes);
                    }
                },
                None => {},
            }
        }
        self.journal.push(HostOp::ReplaceWith { node, replacement });
        proof {
            let expected = old(self)@.replace_with(node, replacement);
            assert(self@.nodes =~= expected.nodes);
            assert(self@.journal =~= expected.journal);
            lemma_replace_with_wf(old(self)@, node, replacement);
        }
    }

    /// Sets attribute `name` of the element `node` to `value`.
    pub fn set_attribute(&mut self, node: usize, name: &str, value: &str)
        requires
            old(self)@.wf(),
            node < old(self)@.nodes.len(),
            old(self)@.nodes[node as int].kind == NodeKind::Element,
        ensures
            final(self)@ == old(self)@.set_attribute(node, name@, value@),
            final(self)@.wf(),
    {
        let wanted = String::from_str(name);
        let ghost view = old(self)@.nodes[node as int].attributes;
        let count = self.nodes[node].attributes.len();
        let at = self.attribute_at(node, name);
        if at < count {
            self.nodes[node].attributes.set(at, (wanted, String::from_str(value)));
        } else {
            self.nodes[node].attributes.push((wanted, String::from_str(value)));
        }
        self.journal.push(
            HostOp::SetAttribute {
                node,
                name: String::from_str(name),
                value: String::from_str(value),
            },
        );
        proof {
            let expected = old(self)@.set_attribute(node, name@, value@);
            assert(self@.nodes[node as int].attributes =~= attribute_set(view, name@, value@));
            assert(self@.nodes[node as int] == expected.nodes[node as int]);
            assert(self@.nodes =~= expected.nodes);
            assert(self@.journal =~= expected.journal);
            lemma_content_wf(old(self)@, node, expected.nodes[node as int]);
            lemma_logged_wf(
                old(self)@.with_node(node as int, expected.nodes[node as int]),
                HostOpView::SetAttribute { node, name: name@, value: value@ },
            );
        }
    }

    /// Removes attribute `name` from the element `node`.
    pub fn remove_attribute(&mut self, node: usize, name: &str)
        requires
            old(self)@.wf(),
            node < old(self)@.nodes.len(),
            old(self)@.nodes[node as int].kind == NodeKind::Element,
        ensures
            final(self)@ == old(self)@.remove_attribute(node, name@),
            final(self)@.wf(),
    {
        let wanted = String::from_str(name);
        let ghost view = old(self)@.nodes[node as int].attributes;
        let count = self.nodes[node].attributes.len();
        let at = self.attribute_at(node, name);
        if at < count {
            self.nodes[node].attributes.remove(at);
        }
        self.journal.push(HostOp::RemoveAttribute { node, name: wanted });
        proof {
            let expected = old(self)@.remove_attribute(node, name@);
            assert(self@.nodes[node as int].attributes =~= attribute_removed(view, name@));
            assert(self@.nodes[node as int] == expected.nodes[node as int]);
            assert(self@.nodes =~= expected.nodes);
            assert(self@.journal =~= expected.journal);
            lemma_content_wf(old(self)@, node, expected.nodes[node as int]);
            lemma_logged_wf(
                old(self)@.with_node(node as int, expected.nodes[node as int]),
                HostOpView::RemoveAttribute { node, name: name@ },
            );
        }
    }

    /// Sets the content of `node` to `text`.
    pub fn set_text(&mut self, node: usize, text: &str)
        requires
            old(self)@.wf(),
            node < old(self)@.nodes.len(),
        ensures
            final(self)@ == old(self)@.set_text(node, text@),
            final(self)@.wf(),
    {
        self.nodes[node].text = String::from_str(text);
        self.journal.push(HostOp::SetText { node, text: String::from_str(text) });
        proof {
            let expected = old(self)@.set_text(node, text@);
            assert(self@.nodes[node as int] == expected.nodes[node as int]);
            assert(self@.nodes =~= expected.nodes);
            assert(self@.journal =~= expected.journal);
            assert(old(self)@.node_ok(node as int));
            lemma_content_wf(old(self)@, node, expected.nodes[node as int]);
            lemma_logged_wf(
                old(self)@.with_node(node as int, expected.nodes[node as int]),
                HostOpView::SetText { node, text: text@ },
            );
        }
    }

    /// Hands the next identifier to the element `node`.
    pub fn assign_vdom_id(&mut self, node: usize) -> (id: u32)
        requires
            old(self)@.wf(),
            node < old(self)@.nodes.len(),
            old(self)@.nodes[node as int].kind == NodeKind::Element,
            old(self)@.next_vdom_id < u32::MAX,
        ensures
            id == old(self)@.next_vdom_id,
            final(self)@ == old(self)@.assign_vdom_id(node),
            final(self)@.wf(),
    {
        let id = self.next_vdom_id;
        self.nodes[node].vdom_id = Some(id);
        self.next_vdom_id = id + 1;
        self.journal.push(
            HostOp::SetAttribute {
                node,
                name: String::from_str("data-sauron-vdom-id"),
                value: decimal_string(id as u64),
            },
        );
        proof {
            let expected = old(self)@.assign_vdom_id(node);
            assert(self@.nodes[node as int] == expected.nodes[node as int]);
            assert(self@.nodes =~= expected.nodes);
            assert(self@.journal =~= expected.journal);
            lemma_assign_vdom_id_wf(old(self)@, node);
        }
        id
    }

    /// Asks the host to set the value that the form control `node` shows.
    pub fn set_value(&mut self, node: usize, value: &str)
        ensures
            final(self)@ == old(self)@.logged(HostOpView::SetValue { node, value: value@ }),
            old(self)@.wf() ==> final(self)@.wf(),
    {
        self.log(HostOp::SetValue { node, value: String::from_str(value) });
    }

    /// Asks the host to set whether the form control `node` is checked.
    pub fn set_checked(&mut self, node: usize, checked: bool)
        ensures
            final(self)@ == old(self)@.logged(HostOpView::SetChecked { node, checked }),
            old(self)@.wf() ==> final(self)@.wf(),
    {
        self.log(HostOp::SetChecked { node, checked });
    }

    /// Asks the host to replace what `node` holds by `markup`. The nodes
    /// that the host makes of the markup are not part of the tree.
    pub fn set_inner_html(&mut self, node: usize, markup: &str)
        ensures
            final(self)@ == old(self)@.logged(HostOpView::SetInnerHtml { node, markup: markup@ }),
            old(self)@.wf() ==> final(self)@.wf(),
    {
        self.log(HostOp::SetInnerHtml { node, markup: String::from_str(markup) });
    }

    /// Asks the host to register `callback` for `event` on `node`; the
    /// callback is kept under `vdom_id`.
    pub fn add_event_listener(&mut self, node: usize, vdom_id: u32, event: &str, callback: Callback)
        ensures
            final(self)@ == old(self)@.logged(
                HostOpView::AddEventListener { node, vdom_id, event: event@, callback },
            ),
            old(self)@.wf() ==> final(self)@.wf(),
    {
        self.log(
            HostOp::AddEventListener { node, vdom_id, event: String::from_str(event), callback },
        );
    }

    /// Asks the host to unregister from `node` the `callback` for `event`
    /// that was kept under `vdom_id`.
    pub fn remove_event_listener(
        &mut self,
        node: usize,
        vdom_id: u32,
        event: &str,
        callback: Callback,
    )
        ensures
            final(self)@ == old(self)@.logged(
                HostOpView::RemoveEventListener { node, vdom_id, event: event@, callback },
            ),
            old(self)@.wf() ==> final(self)@.wf(),
    {
        self.log(
            HostOp::RemoveEventListener { node, vdom_id, event: String::from_str(event), callback },
        );
    }

    /// Takes over, for the element `node`, the identifier that the host
    /// holds in the marker attribute whose text is `marker`. Nothing is
    /// done, and `false` returned, where the text is no identifier or the
    /// identifier cannot be taken over.
    pub fn adopt_marker(&mut self, node: usize, marker: &str) -> (adopted: bool)
        requires
            old(self)@.wf(),
            node < old(self)@.nodes.len(),
        ensures
            adopted == (parsed_u32(marker@) is Some && old(self)@.nodes[node as int].kind
                == NodeKind::Element && parsed_u32(marker@)->0 < u32::MAX
                && !old(self)@.uses_vdom_id(parsed_u32(marker@)->0)),
            final(self)@ == (if adopted {
                old(self)@.adopt_vdom_id(node, parsed_u32(marker@)->0)
            } else {
                old(self)@
            }),
            final(self)@.wf(),
    {
        match parse_u32(marker) {
            Some(id) => self.adopt_vdom_id(node, id),
            None => false,
        }
    }
}

} // verus!
