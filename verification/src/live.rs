//! The live tree: the host's mutable document as the library sees it.
//!
//! Nodes live in an arena and are named by their index in it. Every change
//! is made through a primitive that updates the arena and records, in the
//! journal, the operation that the host has to carry out.
use vstd::prelude::*;
use crate::text::decimal;
use crate::vdom::Callback;

verus! {

/// What kind of host node a live node is.
#[derive(Debug, Clone, Copy, PartialEq, Eq, Structural)]
pub enum NodeKind {
    Element,
    Text,
    /// A comment; the host tree holds them only to keep two neighbouring
    /// text nodes apart.
    Comment,
    /// Any other kind of host node.
    Other,
}

/// One operation on the host tree, as recorded in the journal.
#[derive(Debug, PartialEq)]
pub enum HostOp {
    /// Create an element with this tag; it becomes node `node`.
    CreateElement { node: usize, tag: String },
    /// Create a text node with this content; it becomes node `node`.
    CreateText { node: usize, text: String },
    /// Create a comment with this content; it becomes node `node`.
    CreateComment { node: usize, text: String },
    /// Append `child` to the children of `parent`.
    AppendChild { parent: usize, child: usize },
    /// Remove `child` from the children of `parent`.
    RemoveChild { parent: usize, child: usize },
    /// Put `replacement` in the place of `node`.
    ReplaceWith { node: usize, replacement: usize },
    /// Set attribute `name` of `node` to `value`.
    SetAttribute { node: usize, name: String, value: String },
    /// Remove attribute `name` from `node`.
    RemoveAttribute { node: usize, name: String },
    /// Set the value that `node` shows, where it is a form control.
    SetValue { node: usize, value: String },
    /// Set whether `node` is checked, where it is a form control.
    SetChecked { node: usize, checked: bool },
    /// Replace what `node` holds by the nodes that `markup` describes.
    SetInnerHtml { node: usize, markup: String },
    /// Set the content of the text node `node`.
    SetText { node: usize, text: String },
    /// Register `callback` for `event` on `node`; it is kept under `vdom_id`.
    AddEventListener { node: usize, vdom_id: u32, event: String, callback: Callback },
    /// Unregister from `node` the `callback` that was kept under `vdom_id`.
    RemoveEventListener { node: usize, vdom_id: u32, event: String, callback: Callback },
}

/// A host operation with its texts as sequences of characters.
pub enum HostOpView {
    CreateElement { node: usize, tag: Seq<char> },
    CreateText { node: usize, text: Seq<char> },
    CreateComment { node: usize, text: Seq<char> },
    AppendChild { parent: usize, child: usize },
    RemoveChild { parent: usize, child: usize },
    ReplaceWith { node: usize, replacement: usize },
    SetAttribute { node: usize, name: Seq<char>, value: Seq<char> },
    RemoveAttribute { node: usize, name: Seq<char> },
    SetValue { node: usize, value: Seq<char> },
    SetChecked { node: usize, checked: bool },
    SetInnerHtml { node: usize, markup: Seq<char> },
    SetText { node: usize, text: Seq<char> },
    AddEventListener { node: usize, vdom_id: u32, event: Seq<char>, callback: Callback },
    RemoveEventListener { node: usize, vdom_id: u32, event: Seq<char>, callback: Callback },
}

impl View for HostOp {
    type V = HostOpView;

    open spec fn view(&self) -> HostOpView {
        match self {
            HostOp::CreateElement { node, tag } => HostOpView::CreateElement {
                node: *node,
                tag: tag@,
            },
            HostOp::CreateText { node, text } => HostOpView::CreateText { node: *node, text: text@ },
            HostOp::CreateComment { node, text } => HostOpView::CreateComment {
                node: *node,
                text: text@,
            },
            HostOp::AppendChild { parent, child } => HostOpView::AppendChild {
                parent: *parent,
                child: *child,
            },
            HostOp::RemoveChild { parent, child } => HostOpView::RemoveChild {
                parent: *parent,
                child: *child,
            },
            HostOp::ReplaceWith { node, replacement } => HostOpView::ReplaceWith {
                node: *node,
                replacement: *replacement,
            },
            HostOp::SetAttribute { node, name, value } => HostOpView::SetAttribute {
                node: *node,
                name: name@,
                value: value@,
            },
            HostOp::RemoveAttribute { node, name } => HostOpView::RemoveAttribute {
                node: *node,
                name: name@,
            },
            HostOp::SetValue { node, value } => HostOpView::SetValue { node: *node, value: value@ },
            HostOp::SetChecked { node, checked } => HostOpView::SetChecked {
                node: *node,
                checked: *checked,
            },
            HostOp::SetInnerHtml { node, markup } => HostOpView::SetInnerHtml {
                node: *node,
                markup: markup@,
            },
            HostOp::SetText { node, text } => HostOpView::SetText { node: *node, text: text@ },
            HostOp::AddEventListener { node, vdom_id, event, callback } => {
                HostOpView::AddEventListener {
                    node: *node,
                    vdom_id: *vdom_id,
                    event: event@,
                    callback: *callback,
                }
            },
            HostOp::RemoveEventListener { node, vdom_id, event, callback } => {
                HostOpView::RemoveEventListener {
                    node: *node,
                    vdom_id: *vdom_id,
                    event: event@,
                    callback: *callback,
                }
            },
        }
    }
}

/// The name of the attribute that carries an element's identifier in the
/// host tree.
pub open spec fn marker_name() -> Seq<char> {
    "data-sauron-vdom-id"@
}

/// A live node as a mathematical value.
pub struct LiveNodeView {
    pub kind: NodeKind,
    pub tag: Seq<char>,
    pub attributes: Seq<(Seq<char>, Seq<char>)>,
    pub vdom_id: Option<u32>,
    pub text: Seq<char>,
    pub children: Seq<usize>,
    pub parent: Option<usize>,
}

/// The index of the first item of `s` that satisfies `p`, or the length of
/// `s` where none does.
pub open spec fn first_where<T>(s: Seq<T>, p: spec_fn(T) -> bool) -> int
    decreases s.len(),
{
    if s.len() == 0 {
        0
    } else if p(s[0]) {
        0
    } else {
        1 + first_where(s.drop_first(), p)
    }
}

/// `first_where` is the index before which nothing satisfies `p` and at
/// which something does, or the length.
pub proof fn lemma_first_where<T>(s: Seq<T>, p: spec_fn(T) -> bool, i: int)
    requires
        0 <= i <= s.len(),
        forall|k: int| 0 <= k < i ==> !p(#[trigger] s[k]),
        i < s.len() ==> p(s[i]),
    ensures
        first_where(s, p) == i,
    decreases s.len(),
{
    if s.len() > 0 && i > 0 {
        assert(!p(s[0]));
        let rest = s.drop_first();
        assert forall|k: int| 0 <= k < i - 1 implies !p(#[trigger] rest[k]) by {
            assert(rest[k] == s[k + 1]);
        }
        lemma_first_where(rest, p, i - 1);
    }
}

/// What `first_where` finds.
pub proof fn lemma_first_where_found<T>(s: Seq<T>, p: spec_fn(T) -> bool)
    ensures
        0 <= first_where(s, p) <= s.len(),
        first_where(s, p) < s.len() ==> p(s[first_where(s, p)]),
        forall|k: int| 0 <= k < first_where(s, p) ==> !p(#[trigger] s[k]),
    decreases s.len(),
{
    if s.len() > 0 && !p(s[0]) {
        let rest = s.drop_first();
        lemma_first_where_found(rest, p);
        assert forall|k: int| 0 <= k < first_where(s, p) implies !p(#[trigger] s[k]) by {
            if k > 0 {
                assert(s[k] == rest[k - 1]);
            }
        }
    }
}

/// The position of the attribute called `name`, or the length.
pub open spec fn attribute_position(attrs: Seq<(Seq<char>, Seq<char>)>, name: Seq<char>) -> int {
    first_where(attrs, named(name))
}

/// The test for an attribute called `name`.
pub open spec fn named(name: Seq<char>) -> spec_fn((Seq<char>, Seq<char>)) -> bool {
    |a: (Seq<char>, Seq<char>)| a.0 == name
}

/// The test for the node `child`.
pub open spec fn is_node(child: usize) -> spec_fn(usize) -> bool {
    |c: usize| c == child
}

/// The attributes after `name` was set to `value`: replaced in place where
/// it was present, added at the end where it was not.
pub open spec fn attribute_set(
    attrs: Seq<(Seq<char>, Seq<char>)>,
    name: Seq<char>,
    value: Seq<char>,
) -> Seq<(Seq<char>, Seq<char>)> {
    let at = attribute_position(attrs, name);
    if at < attrs.len() {
        attrs.update(at, (name, value))
    } else {
        attrs.push((name, value))
    }
}

/// The attributes without the first one called `name`.
pub open spec fn attribute_removed(attrs: Seq<(Seq<char>, Seq<char>)>, name: Seq<char>) -> Seq<
    (Seq<char>, Seq<char>),
> {
    let at = attribute_position(attrs, name);
    if at < attrs.len() {
        attrs.remove(at)
    } else {
        attrs
    }
}

/// The position of `child` among `children`, or the length.
pub open spec fn child_position(children: Seq<usize>, child: usize) -> int {
    first_where(children, is_node(child))
}

/// The live tree as a mathematical value.
pub struct LiveTreeView {
    pub nodes: Seq<LiveNodeView>,
    pub root: usize,
    pub next_vdom_id: u32,
    pub journal: Seq<HostOpView>,
}

/// A node that was just created: no attributes, no children, no parent.
pub open spec fn blank(kind: NodeKind, tag: Seq<char>, text: Seq<char>) -> LiveNodeView {
    LiveNodeView {
        kind,
        tag,
        attributes: Seq::empty(),
        vdom_id: None,
        text,
        children: Seq::empty(),
        parent: None,
    }
}

impl LiveTreeView {
    /// What holds of every node of a well-formed tree. Its children were
    /// created after it, name it as their parent, and occur once each; its
    /// parent holds it as a child. Only elements carry attributes and
    /// identifiers. Text and comments have no children, and a node of
    /// another kind has children only where it is the root. Its identifier
    /// was handed out already.
    pub open spec fn node_ok(self, n: int) -> bool {
        let node = self.nodes[n];
        &&& forall|i: int|
            0 <= i < node.children.len() ==> n < (#[trigger] node.children[i]) < self.nodes.len()
                && self.nodes[node.children[i] as int].parent == Some(n as usize)
        &&& forall|i: int, j: int|
            0 <= i < j < node.children.len() ==> (#[trigger] node.children[i]) != (
            #[trigger] node.children[j])
        &&& node.parent is Some ==> node.parent->0 < n && self.nodes[node.parent->0 as int].children.contains(
            n as usize,
        )
        &&& node.kind != NodeKind::Element ==> {
            &&& node.vdom_id is None
            &&& node.attributes.len() == 0
            &&& (n != self.root || node.kind != NodeKind::Other) ==> node.children.len() == 0
        }
        &&& node.vdom_id is Some ==> node.vdom_id->0 < self.next_vdom_id
    }

    /// No identifier is held by two nodes.
    pub open spec fn distinct_ids(self) -> bool {
        forall|n: int, m: int|
            0 <= n < self.nodes.len() && 0 <= m < self.nodes.len() && n != m && (
            #[trigger] self.nodes[n].vdom_id) is Some ==> self.nodes[n].vdom_id != (
            #[trigger] self.nodes[m].vdom_id)
    }

    /// The invariant of a live tree.
    pub open spec fn wf(self) -> bool {
        &&& self.root < self.nodes.len() <= usize::MAX
        &&& self.nodes[self.root as int].parent is None
        &&& forall|n: int| 0 <= n < self.nodes.len() ==> #[trigger] self.node_ok(n)
        &&& self.distinct_ids()
    }

    /// The tree with `op` added to the journal.
    pub open spec fn logged(self, op: HostOpView) -> LiveTreeView {
        LiveTreeView { journal: self.journal.push(op), ..self }
    }

    /// The tree with `ops` added to the journal.
    pub open spec fn journaled(self, ops: Seq<HostOpView>) -> LiveTreeView {
        LiveTreeView { journal: self.journal + ops, ..self }
    }

    /// The tree with node `n` replaced by `node`.
    pub open spec fn with_node(self, n: int, node: LiveNodeView) -> LiveTreeView {
        LiveTreeView { nodes: self.nodes.update(n, node), ..self }
    }

    /// The tree with one more node that the host holds already: nothing is
    /// asked of the host. For an element `content` is the tag, else the
    /// text.
    pub open spec fn adopt(self, kind: NodeKind, content: Seq<char>) -> LiveTreeView {
        LiveTreeView {
            nodes: self.nodes.push(
                if kind == NodeKind::Element {
                    blank(kind, content, Seq::empty())
                } else {
                    blank(kind, Seq::empty(), content)
                },
            ),
            ..self
        }
    }

    /// Whether some node carries `id`.
    pub open spec fn uses_vdom_id(self, id: u32) -> bool {
        exists|n: int| 0 <= n < self.nodes.len() && (#[trigger] self.nodes[n].vdom_id) == Some(id)
    }

    /// The tree after `node` took over the identifier `id` that the host
    /// holds for it already; later identifiers are handed out above it.
    pub open spec fn adopt_vdom_id(self, node: usize, id: u32) -> LiveTreeView {
        let n = self.nodes[node as int];
        LiveTreeView {
            next_vdom_id: if id < self.next_vdom_id {
                self.next_vdom_id
            } else {
                (id + 1) as u32
            },
            ..self.with_node(node as int, LiveNodeView { vdom_id: Some(id), ..n })
        }
    }

    /// The tree with a new element at the end of the arena.
    pub open spec fn create_element(self, tag: Seq<char>) -> LiveTreeView {
        LiveTreeView {
            nodes: self.nodes.push(blank(NodeKind::Element, tag, Seq::empty())),
            ..self
        }.logged(HostOpView::CreateElement { node: self.nodes.len() as usize, tag })
    }

    /// The tree with a new text node at the end of the arena.
    pub open spec fn create_text(self, text: Seq<char>) -> LiveTreeView {
        LiveTreeView {
            nodes: self.nodes.push(blank(NodeKind::Text, Seq::empty(), text)),
            ..self
        }.logged(HostOpView::CreateText { node: self.nodes.len() as usize, text })
    }

    /// The tree with a new comment at the end of the arena.
    pub open spec fn create_comment(self, text: Seq<char>) -> LiveTreeView {
        LiveTreeView {
            nodes: self.nodes.push(blank(NodeKind::Comment, Seq::empty(), text)),
            ..self
        }.logged(HostOpView::CreateComment { node: self.nodes.len() as usize, text })
    }

    /// The tree after `child` became the last child of `parent`.
    pub open spec fn append_child(self, parent: usize, child: usize) -> LiveTreeView {
        let p = self.nodes[parent as int];
        let c = self.nodes[child as int];
        self.with_node(
            parent as int,
            LiveNodeView { children: p.children.push(child), ..p },
        ).with_node(child as int, LiveNodeView { parent: Some(parent), ..c }).logged(
            HostOpView::AppendChild { parent, child },
        )
    }

    /// The tree after `child` left the children of `parent`. Where it is no
    /// child of `parent` only the journal changes.
    pub open spec fn remove_child(self, parent: usize, child: usize) -> LiveTreeView {
        let p = self.nodes[parent as int];
        let c = self.nodes[child as int];
        let at = child_position(p.children, child);
        if at < p.children.len() {
            self.with_node(
                parent as int,
                LiveNodeView { children: p.children.remove(at), ..p },
            ).with_node(child as int, LiveNodeView { parent: None, ..c }).logged(
                HostOpView::RemoveChild { parent, child },
            )
        } else {
            self.logged(HostOpView::RemoveChild { parent, child })
        }
    }

    /// The tree after `replacement` took the place of `node`: as the root
    /// where `node` is the root, else among the children of its parent.
    /// Where `node` has no place only the journal changes.
    pub open spec fn replace_with(self, node: usize, replacement: usize) -> LiveTreeView {
        let op = HostOpView::ReplaceWith { node, replacement };
        let old = self.nodes[node as int];
        let new = self.nodes[replacement as int];
        if node == self.root {
            LiveTreeView { root: replacement, ..self }.logged(op)
        } else if old.parent is Some {
            let parent = old.parent->0;
            let p = self.nodes[parent as int];
            let at = child_position(p.children, node);
            self.with_node(
                parent as int,
                LiveNodeView { children: p.children.update(at, replacement), ..p },
            ).with_node(node as int, LiveNodeView { parent: None, ..old }).with_node(
                replacement as int,
                LiveNodeView { parent: Some(parent), ..new },
            ).logged(op)
        } else {
            self.logged(op)
        }
    }

    /// The tree after attribute `name` of `node` was set to `value`.
    pub open spec fn set_attribute(self, node: usize, name: Seq<char>, value: Seq<char>) -> LiveTreeView {
        let n = self.nodes[node as int];
        self.with_node(
            node as int,
            LiveNodeView { attributes: attribute_set(n.attributes, name, value), ..n },
        ).logged(HostOpView::SetAttribute { node, name, value })
    }

    /// The tree after attribute `name` of `node` was removed.
    pub open spec fn remove_attribute(self, node: usize, name: Seq<char>) -> LiveTreeView {
        let n = self.nodes[node as int];
        self.with_node(
            node as int,
            LiveNodeView { attributes: attribute_removed(n.attributes, name), ..n },
        ).logged(HostOpView::RemoveAttribute { node, name })
    }

    /// The tree after the content of `node` was set to `text`.
    pub open spec fn set_text(self, node: usize, text: Seq<char>) -> LiveTreeView {
        let n = self.nodes[node as int];
        self.with_node(node as int, LiveNodeView { text, ..n }).logged(
            HostOpView::SetText { node, text },
        )
    }

    /// The tree after `node` was given the next identifier: the node holds
    /// it, and the host is told to write it into the marker attribute.
    pub open spec fn assign_vdom_id(self, node: usize) -> LiveTreeView {
        let n = self.nodes[node as int];
        LiveTreeView {
            next_vdom_id: (self.next_vdom_id + 1) as u32,
            ..self.with_node(node as int, LiveNodeView { vdom_id: Some(self.next_vdom_id), ..n })
        }.logged(
            HostOpView::SetAttribute {
                node,
                name: marker_name(),
                value: decimal(self.next_vdom_id as nat),
            },
        )
    }
}

} // verus!
