//! Building live subtrees from declarative ones.
use vstd::prelude::*;
use vstd::string::StringExecFns;
use crate::closures::{listeners_view, ActiveClosure, Listener};
use crate::host::LiveTree;
use crate::live::{HostOpView, LiveTreeView, NodeKind};
use crate::liveness::{
    accounted, carried_live, carried_under, entries_carried_under, lemma_carried_under_kept,
    lemma_carried_under_parent, live, owned, under,
};
use crate::render::{push_values, values_markup};
use crate::vdom::{lemma_child_decreases, Attribute, AttributeValue, Callback, Element, Node, Value};

verus! {

/// The text that a `value` attribute hands to the host: that of its first
/// value where it is a scalar, else none.
pub open spec fn value_text(values: Seq<AttributeValue>) -> Seq<char> {
    if values.len() > 0 && values[0] is Simple {
        values[0]->Simple_0.text()
    } else {
        Seq::empty()
    }
}

/// Whether a `checked` attribute checks: only where its first value is the
/// boolean `true`.
pub open spec fn checked_flag(values: Seq<AttributeValue>) -> bool {
    values.len() > 0 && values[0] == AttributeValue::Simple(Value::Bool(true))
}

/// The markup that an `inner_html` attribute injects: its first value
/// where that is raw markup, else none.
pub open spec fn injected_markup(values: Seq<AttributeValue>) -> Seq<char> {
    if values.len() > 0 && values[0] is FunctionCall {
        values[0]->FunctionCall_0@
    } else {
        Seq::empty()
    }
}

/// The live tree after one attribute was put on the element `node`, with
/// `text` as what a plain attribute is set to.
///
/// An attribute without a name changes nothing. `value` and `checked` go
/// through the host's own setters and `inner_html` injects raw markup; any
/// other attribute is set on the element to `text`.
pub open spec fn attribute_put(t: LiveTreeView, node: usize, attr: Attribute, text: Seq<char>) -> LiveTreeView {
    if attr.name@.len() == 0 {
        t
    } else if attr.name@ == "value"@ {
        t.logged(HostOpView::SetValue { node, value: value_text(attr.value@) })
    } else if attr.name@ == "checked"@ {
        t.logged(HostOpView::SetChecked { node, checked: checked_flag(attr.value@) })
    } else if attr.name@ == "inner_html"@ {
        t.logged(HostOpView::SetInnerHtml { node, markup: injected_markup(attr.value@) })
    } else {
        t.set_attribute(node, attr.name@, text)
    }
}

/// The live tree after a patch applied one attribute to the element
/// `node`: a plain attribute is set to the text of its scalar, and to the
/// empty text where its first value is no scalar.
pub open spec fn attribute_applied(t: LiveTreeView, node: usize, attr: Attribute) -> LiveTreeView {
    attribute_put(t, node, attr, value_text(attr.value@))
}

/// The live tree after one attribute was given to the new element `node`:
/// a plain attribute is set to the text that its values have in markup.
pub open spec fn attribute_built(t: LiveTreeView, node: usize, attr: Attribute) -> LiveTreeView {
    attribute_put(t, node, attr, values_markup(attr.value@, attr.value@.len()))
}

/// The live tree after the first `k` of `attrs` were applied to `node` in
/// order.
pub open spec fn attributes_applied(t: LiveTreeView, node: usize, attrs: Seq<Attribute>, k: nat) -> LiveTreeView
    decreases k,
{
    if k == 0 || k > attrs.len() {
        t
    } else {
        attribute_applied(attributes_applied(t, node, attrs, (k - 1) as nat), node, attrs[k - 1])
    }
}

/// The text of the first value of an attribute where it is a scalar, else
/// the empty text.
fn first_scalar_text(values: &Vec<AttributeValue>) -> (text: String)
    ensures
        text@ == value_text(values@),
{
    let mut text = String::new();
    if values.len() > 0 {
        match &values[0] {
            AttributeValue::Simple(value) => {
                value.push_text(&mut text);
            },
            _ => {},
        }
    }
    assert(text@ =~= value_text(values@));
    text
}

/// Puts one attribute on the element `node`, with `text` as what a plain
/// attribute is set to.
fn put_attribute(tree: &mut LiveTree, node: usize, attr: &Attribute, text: &str)
    requires
        old(tree)@.wf(),
        node < old(tree)@.nodes.len(),
        old(tree)@.nodes[node as int].kind == NodeKind::Element,
    ensures
        final(tree)@ == attribute_put(old(tree)@, node, *attr, text@),
        final(tree)@.wf(),
{
    let name = attr.name.as_str();
    if name.is_empty() {
        return ;
    }
    if attr.name == String::from_str("value") {
        let string_value = first_scalar_text(&attr.value);
        tree.set_value(node, string_value.as_str());
    } else if attr.name == String::from_str("checked") {
        let checked = if attr.value.len() > 0 {
            match &attr.value[0] {
                AttributeValue::Simple(value) => match value.as_bool() {
                    Some(flag) => flag,
                    None => false,
                },
                _ => false,
            }
        } else {
            false
        };
        tree.set_checked(node, checked);
    } else if attr.name == String::from_str("inner_html") {
        let mut markup = String::new();
        if attr.value.len() > 0 {
            match &attr.value[0] {
                AttributeValue::FunctionCall(call) => {
                    markup.append(call.as_str());
                },
                _ => {},
            }
        }
        assert(markup@ =~= injected_markup(attr.value@));
        tree.set_inner_html(node, markup.as_str());
    } else {
        tree.set_attribute(node, name, text);
    }
}

/// Applies one attribute of a patch to the element `node`.
pub fn apply_attribute(tree: &mut LiveTree, node: usize, attr: &Attribute)
    requires
        old(tree)@.wf(),
        node < old(tree)@.nodes.len(),
        old(tree)@.nodes[node as int].kind == NodeKind::Element,
    ensures
        final(tree)@ == attribute_applied(old(tree)@, node, *attr),
        final(tree)@.wf(),
{
    let text = first_scalar_text(&attr.value);
    put_attribute(tree, node, attr, text.as_str());
}

/// Gives one attribute to the new element `node`.
pub fn build_attribute(tree: &mut LiveTree, node: usize, attr: &Attribute)
    requires
        old(tree)@.wf(),
        node < old(tree)@.nodes.len(),
        old(tree)@.nodes[node as int].kind == NodeKind::Element,
    ensures
        final(tree)@ == attribute_built(old(tree)@, node, *attr),
        final(tree)@.wf(),
{
    let mut text = String::new();
    push_values(&attr.value, &mut text);
    assert(text@ =~= values_markup(attr.value@, attr.value@.len()));
    put_attribute(tree, node, attr, text.as_str());
}

/// Whether the attribute registers a callback: its first value is one.
pub open spec fn is_event(attr: Attribute) -> bool {
    attr.value@.len() > 0 && attr.value@[0] is EventCallback
}

/// The callbacks that the first `k` of `attrs` register, each with the
/// name of its attribute as the event.
pub open spec fn listeners_of(attrs: Seq<Attribute>, k: nat) -> Seq<(Seq<char>, Callback)>
    decreases k,
{
    if k == 0 || k > attrs.len() {
        Seq::empty()
    } else if is_event(attrs[k - 1]) {
        listeners_of(attrs, (k - 1) as nat).push(
            (attrs[k - 1].name@, attrs[k - 1].value@[0]->EventCallback_0),
        )
    } else {
        listeners_of(attrs, (k - 1) as nat)
    }
}

/// The live tree after those of the first `k` of `attrs` that register no
/// callback were given to the new element `node`.
pub open spec fn plain_applied(t: LiveTreeView, node: usize, attrs: Seq<Attribute>, k: nat) -> LiveTreeView
    decreases k,
{
    if k == 0 || k > attrs.len() {
        t
    } else if is_event(attrs[k - 1]) {
        plain_applied(t, node, attrs, (k - 1) as nat)
    } else {
        attribute_built(plain_applied(t, node, attrs, (k - 1) as nat), node, attrs[k - 1])
    }
}

/// The requests to register `listeners` on `node`, to be kept under
/// `vdom_id`, in order.
pub open spec fn listen_ops(node: usize, vdom_id: u32, listeners: Seq<(Seq<char>, Callback)>) -> Seq<
    HostOpView,
> {
    listeners.map_values(
        |l: (Seq<char>, Callback)|
            HostOpView::AddEventListener { node, vdom_id, event: l.0, callback: l.1 },
    )
}

/// The number of elements in `node` that register a callback.
pub open spec fn owners(node: Node) -> nat
    decreases node,
{
    match node {
        Node::Text(_) => 0,
        Node::Element(e) => element_owners(e),
    }
}

/// The number of elements in and below `element` that register a callback.
pub open spec fn element_owners(element: Element) -> nat
    decreases element,
{
    (if listeners_of(element.attrs@, element.attrs@.len()).len() > 0 {
        1nat
    } else {
        0nat
    }) + children_owners(element.children@, element.children@.len())
}

/// The number of elements in the first `k` of `children` that register a
/// callback.
pub open spec fn children_owners(children: Seq<Node>, k: nat) -> nat
    decreases children, k,
{
    if k == 0 || k > children.len() {
        0
    } else {
        children_owners(children, (k - 1) as nat) + owners(children[k - 1])
    }
}

/// A live tree together with the callbacks registered while it was built.
pub struct Built {
    pub tree: LiveTreeView,
    pub closures: Map<u32, Seq<(Seq<char>, Callback)>>,
}

/// The text of the comment that keeps two text nodes apart.
pub open spec fn separator_text() -> Seq<char> {
    "separator"@
}

/// The state after a live subtree was built for `node`; its root is the
/// first node created, `t.nodes.len()`, and is left detached.
pub open spec fn node_created(
    t: LiveTreeView,
    closures: Map<u32, Seq<(Seq<char>, Callback)>>,
    node: Node,
    wired: bool,
) -> Built
    decreases node,
{
    match node {
        Node::Text(text) => Built { tree: t.create_text(text@), closures },
        Node::Element(e) => element_created(t, closures, e, wired),
    }
}

/// The state after a live element was built for `element`. The element is
/// created and given its attributes. Where callbacks are wired and the
/// element registers any, it gets the next identifier, the host is asked to
/// register them, and they enter `closures` under that identifier. Then its
/// children are built and appended in order.
pub open spec fn element_created(
    t: LiveTreeView,
    closures: Map<u32, Seq<(Seq<char>, Callback)>>,
    element: Element,
    wired: bool,
) -> Built
    decreases element,
{
    let id = t.nodes.len() as usize;
    let with_attrs = plain_applied(
        t.create_element(element.tag@),
        id,
        element.attrs@,
        element.attrs@.len(),
    );
    let listeners = listeners_of(element.attrs@, element.attrs@.len());
    let owned = if wired && listeners.len() > 0 {
        Built {
            tree: with_attrs.assign_vdom_id(id).journaled(
                listen_ops(id, with_attrs.next_vdom_id, listeners),
            ),
            closures: closures.insert(with_attrs.next_vdom_id, listeners),
        }
    } else {
        Built { tree: with_attrs, closures }
    };
    children_created(owned, id, element.children@, element.children@.len(), wired)
}

/// The state after the first `k` of `children` were built and appended to
/// `parent`. A comment is put between two text nodes that follow each
/// other, so that the host keeps them apart.
pub open spec fn children_created(
    start: Built,
    parent: usize,
    children: Seq<Node>,
    k: nat,
    wired: bool,
) -> Built
    decreases children, k,
{
    if k == 0 || k > children.len() {
        start
    } else {
        let before = children_created(start, parent, children, (k - 1) as nat, wired);
        let apart = if k >= 2 && children[k - 2] is Text && children[k - 1] is Text {
            before.tree.create_comment(separator_text()).append_child(
                parent,
                before.tree.nodes.len() as usize,
            )
        } else {
            before.tree
        };
        let built = node_created(apart, before.closures, children[k - 1], wired);
        Built {
            tree: built.tree.append_child(parent, apart.nodes.len() as usize),
            closures: built.closures,
        }
    }
}

/// What building a subtree leaves as it was, and what it promises of the
/// new subtree's root `id`.
pub open spec fn grown(old: LiveTreeView, new: LiveTreeView, id: usize) -> bool {
    &&& new.wf()
    &&& id == old.nodes.len()
    &&& id < new.nodes.len()
    &&& new.root == old.root
    &&& new.nodes[id as int].parent is None
    &&& forall|n: int| 0 <= n < old.nodes.len() ==> #[trigger] new.nodes[n] == old.nodes[n]
}

/// Whether every node from `from` on that carries an identifier has an
/// entry in `closures`.
pub open spec fn registered(
    t: LiveTreeView,
    from: int,
    closures: Map<u32, Seq<(Seq<char>, Callback)>>,
) -> bool {
    forall|m: int|
        from <= m < t.nodes.len() && (#[trigger] t.nodes[m].vdom_id) is Some
            ==> closures.contains_key(t.nodes[m].vdom_id->0)
}

/// Whether `after` has an entry wherever `before` has one.
pub open spec fn keeps_entries(
    before: Map<u32, Seq<(Seq<char>, Callback)>>,
    after: Map<u32, Seq<(Seq<char>, Callback)>>,
) -> bool {
    forall|id: u32| before.contains_key(id) ==> #[trigger] after.contains_key(id)
}

/// The callbacks that `attrs` register.
fn collect_listeners(attrs: &Vec<Attribute>) -> (listeners: Vec<Listener>)
    ensures
        listeners_view(listeners@) == listeners_of(attrs@, attrs@.len()),
{
    let mut listeners: Vec<Listener> = Vec::new();
    let mut k: usize = 0;
    assert(listeners_view(listeners@) =~= listeners_of(attrs@, 0));
    while k < attrs.len()
        invariant
            k <= attrs.len(),
            listeners_view(listeners@) == listeners_of(attrs@, k as nat),
        decreases attrs.len() - k,
    {
        let attr = &attrs[k];
        if attr.value.len() > 0 {
            match attr.value[0].get_callback() {
                Some(callback) => {
                    listeners.push(Listener { event: attr.name.clone(), callback });
                },
                None => {},
            }
        }
        k = k + 1;
        assert(listeners_view(listeners@) =~= listeners_of(attrs@, k as nat));
    }
    listeners
}

/// The number of owners among the children grows with each child.
proof fn lemma_children_owners_monotonic(children: Seq<Node>, i: nat, j: nat)
    requires
        i <= j <= children.len(),
    ensures
        children_owners(children, i) <= children_owners(children, j),
    decreases j,
{
    if i < j {
        lemma_children_owners_monotonic(children, i, (j - 1) as nat);
    }
}

/// Builds a live subtree for `node` and leaves it detached. Callbacks are
/// wired where `wired` is set: the elements that register any get an
/// identifier each, and their callbacks enter `closures`.
pub fn create_node(
    tree: &mut LiveTree,
    closures: &mut ActiveClosure,
    node: &Node,
    wired: bool,
) -> (id: usize)
    requires
        old(tree)@.wf(),
        wired ==> old(tree)@.next_vdom_id + owners(*node) <= u32::MAX,
    ensures
        final(tree)@ == node_created(old(tree)@, old(closures)@, *node, wired).tree,
        final(closures)@ == node_created(old(tree)@, old(closures)@, *node, wired).closures,
        grown(old(tree)@, final(tree)@, id),
        final(tree)@.nodes[id as int].kind == (if *node is Element {
            NodeKind::Element
        } else {
            NodeKind::Text
        }),
        final(tree)@.next_vdom_id == old(tree)@.next_vdom_id + (if wired {
            owners(*node)
        } else {
            0
        }),
        registered(final(tree)@, id as int, final(closures)@),
        keeps_entries(old(closures)@, final(closures)@),
        entries_carried_under(final(tree)@, id, old(closures)@, final(closures)@),
    decreases *node,
{
    match node {
        Node::Text(text) => {
            let id = tree.create_text(text.as_str());
            proof {
                assert(tree@.node_ok(id as int));
            }
            id
        },
        Node::Element(element) => create_element_node(tree, closures, element, wired),
    }
}

/// Builds a live element for `element` and leaves it detached.
pub fn create_element_node(
    tree: &mut LiveTree,
    closures: &mut ActiveClosure,
    element: &Element,
    wired: bool,
) -> (id: usize)
    requires
        old(tree)@.wf(),
        wired ==> old(tree)@.next_vdom_id + element_owners(*element) <= u32::MAX,
    ensures
        final(tree)@ == element_created(old(tree)@, old(closures)@, *element, wired).tree,
        final(closures)@ == element_created(old(tree)@, old(closures)@, *element, wired).closures,
        grown(old(tree)@, final(tree)@, id),
        final(tree)@.nodes[id as int].kind == NodeKind::Element,
        final(tree)@.next_vdom_id == old(tree)@.next_vdom_id + (if wired {
            element_owners(*element)
        } else {
            0
        }),
        registered(final(tree)@, id as int, final(closures)@),
        keeps_entries(old(closures)@, final(closures)@),
        entries_carried_under(final(tree)@, id, old(closures)@, final(closures)@),
    decreases *element,
{
    let id = tree.create_element(element.tag.as_str());
    let ghost created = tree@;
    let mut k: usize = 0;
    while k < element.attrs.len()
        invariant
            k <= element.attrs.len(),
            tree@.wf(),
            id == old(tree)@.nodes.len(),
            tree@.nodes.len() == id + 1,
            tree@.root == old(tree)@.root,
            tree@.next_vdom_id == old(tree)@.next_vdom_id,
            tree@.nodes[id as int].kind == NodeKind::Element,
            tree@.nodes[id as int].parent is None,
            tree@.nodes[id as int].vdom_id is None,
            forall|n: int| 0 <= n < id ==> #[trigger] tree@.nodes[n] == old(tree)@.nodes[n],
            tree@ == plain_applied(created, id, element.attrs@, k as nat),
        decreases element.attrs.len() - k,
    {
        let attr = &element.attrs[k];
        let registers = attr.value.len() > 0 && attr.value[0].get_callback().is_some();
        if !registers {
            build_attribute(tree, id, attr);
        }
        k = k + 1;
    }
    let listeners = collect_listeners(&element.attrs);
    let ghost listened = listeners_view(listeners@);
    let ghost with_attrs = tree@;
    let ghost start_closures = closures@;
    if wired && listeners.len() > 0 {
        let vdom_id = tree.assign_vdom_id(id);
        let ghost assigned = tree@;
        let mut j: usize = 0;
        proof {
            assert(listen_ops(id, vdom_id, listened).take(0) =~= Seq::empty());
            assert(tree@.journal =~= assigned.journal + listen_ops(id, vdom_id, listened).take(0));
        }
        while j < listeners.len()
            invariant
                j <= listeners.len(),
                tree@.wf(),
                listened == listeners_view(listeners@),
                tree@ == assigned.journaled(listen_ops(id, vdom_id, listened).take(j as int)),
            decreases listeners.len() - j,
        {
            tree.add_event_listener(
                id,
                vdom_id,
                listeners[j].event.as_str(),
                listeners[j].callback,
            );
            proof {
                let all = listen_ops(id, vdom_id, listened);
                assert(all.take(j + 1) =~= all.take(j as int).push(all[j as int]));
                assert(tree@.journal =~= assigned.journal + all.take(j + 1));
            }
            j = j + 1;
        }
        proof {
            let all = listen_ops(id, vdom_id, listened);
            assert(all.take(all.len() as int) =~= all);
        }
        closures.insert(vdom_id, listeners);
        proof {
            assert(under(tree@, id, id as int));
            assert(tree@.nodes[id as int].vdom_id == Some(vdom_id));
            assert(carried_under(tree@, id, vdom_id));
        }
    }
    let ghost owned = Built { tree: tree@, closures: closures@ };
    let ghost own: nat = if wired && listened.len() > 0 {
        1
    } else {
        0
    };
    let children = &element.children;
    let mut i: usize = 0;
    while i < children.len()
        invariant
            i <= children.len(),
            children == &element.children,
            tree@.wf(),
            id == old(tree)@.nodes.len(),
            id < tree@.nodes.len(),
            tree@.root == old(tree)@.root,
            tree@.nodes[id as int].kind == NodeKind::Element,
            tree@.nodes[id as int].parent is None,
            forall|n: int| 0 <= n < id ==> #[trigger] tree@.nodes[n] == old(tree)@.nodes[n],
            tree@ == children_created(owned, id, children@, i as nat, wired).tree,
            closures@ == children_created(owned, id, children@, i as nat, wired).closures,
            registered(tree@, id as int, closures@),
            keeps_entries(old(closures)@, closures@),
            entries_carried_under(tree@, id, old(closures)@, closures@),
            wired ==> old(tree)@.next_vdom_id + own + children_owners(children@, children@.len())
                <= u32::MAX,
            tree@.next_vdom_id == old(tree)@.next_vdom_id + (if wired {
                own + children_owners(children@, i as nat)
            } else {
                0
            }),
        decreases children.len() - i,
    {
        let ghost start = tree@;
        let ghost start_entries = closures@;
        if i > 0 && children[i - 1].is_text() && children[i].is_text() {
            let separator = tree.create_comment("separator");
            proof {
                assert(tree@.node_ok(separator as int));
            }
            tree.append_child(id, separator);
        }
        proof {
            lemma_child_decreases(Node::Element(*element), *element, i as int);
            lemma_children_owners_monotonic(children@, (i + 1) as nat, children@.len());
        }
        let ghost apart = tree@;
        let child = create_node(tree, closures, &children[i], wired);
        let ghost built = tree@;
        proof {
            assert(tree@.nodes[id as int] == apart.nodes[id as int]);
        }
        tree.append_child(id, child);
        proof {
            assert forall|vid: u32| closures@.contains_key(vid) implies old(closures)@.contains_key(
                vid,
            ) || #[trigger] carried_under(tree@, id, vid) by {
                if start_entries.contains_key(vid) {
                    if !old(closures)@.contains_key(vid) {
                        assert(carried_under(start, id, vid));
                        lemma_carried_under_kept(
                            start,
                            tree@,
                            id,
                            start.nodes.len() as int,
                            vid,
                        );
                    }
                } else {
                    assert(carried_under(built, child, vid));
                    lemma_carried_under_kept(built, tree@, child, built.nodes.len() as int, vid);
                    lemma_carried_under_parent(tree@, id, child, vid);
                }
            }
        }
        i = i + 1;
    }
    id
}

/// The tree in which a mount point waits for its content.
pub open spec fn mount_point() -> LiveTreeView {
    LiveTreeView {
        nodes: seq![crate::live::blank(NodeKind::Comment, Seq::empty(), Seq::empty())],
        root: 0,
        next_vdom_id: 0,
        journal: Seq::empty(),
    }
}

/// The state after `node` was mounted: its live subtree is built in a tree
/// that holds the mount point alone, and takes the mount point's place as
/// the root.
pub open spec fn mounted(node: Node, wired: bool) -> Built {
    let built = node_created(mount_point(), Map::empty(), node, wired);
    Built { tree: built.tree.replace_with(0, 1), closures: built.closures }
}

/// Builds the live tree of `node` from nothing, and returns it with the
/// callbacks that were registered for it. Callbacks are wired where a
/// program is given.
pub fn mount<DSP>(program: Option<&DSP>, node: &Node) -> (result: (LiveTree, ActiveClosure))
    requires
        program is Some ==> owners(*node) <= u32::MAX,
    ensures
        result.0@ == mounted(*node, program is Some).tree,
        result.1@ == mounted(*node, program is Some).closures,
        result.0@.wf(),
        result.0@.root == 1,
        registered(result.0@, 0, result.1@),
        accounted(result.0@, result.1@, Map::empty()),
        owned(result.0@, result.1@),
{
    let mut tree = LiveTree::new(NodeKind::Comment, "");
    proof {
        crate::text::lemma_empty_literal();
        assert(tree@.nodes =~= mount_point().nodes);
        assert(tree@.journal =~= mount_point().journal);
    }
    let mut closures = ActiveClosure::new();
    let root = create_node(&mut tree, &mut closures, node, program.is_some());
    let ghost built = tree@;
    tree.replace_with(0, root);
    proof {
        assert forall|id: u32| closures@.contains_key(id) implies #[trigger] carried_live(
            tree@,
            id,
        ) by {
            assert(carried_under(built, root, id));
            let m = choose|m: int|
                0 <= m < built.nodes.len() && under(built, root, m) && built.nodes[m].vdom_id
                    == Some(id);
            crate::liveness::lemma_under_same(built, tree@, root, m, built.nodes.len() as int);
            assert(live(tree@, m) && tree@.nodes[m].vdom_id == Some(id));
        }
    }
    (tree, closures)
}

/// Whether `attrs` register any callback.
fn registers_callbacks(attrs: &Vec<Attribute>) -> (any: bool)
    ensures
        any == (listeners_of(attrs@, attrs@.len()).len() > 0),
{
    let mut any = false;
    let mut k: usize = 0;
    while k < attrs.len()
        invariant
            k <= attrs.len(),
            any == (listeners_of(attrs@, k as nat).len() > 0),
        decreases attrs.len() - k,
    {
        if attrs[k].value.len() > 0 && attrs[k].value[0].get_callback().is_some() {
            any = true;
        }
        k = k + 1;
    }
    any
}

/// Counts the elements in `node` that register a callback; none where the
/// count does not fit.
pub fn count_owners(node: &Node) -> (count: Option<u64>)
    ensures
        match count {
            Some(c) => c == owners(*node),
            None => owners(*node) > u64::MAX,
        },
    decreases *node,
{
    match node {
        Node::Text(_) => Some(0),
        Node::Element(element) => {
            let own: u64 = if registers_callbacks(&element.attrs) {
                1
            } else {
                0
            };
            proof {
                assert forall|i: int| 0 <= i < element.children@.len() implies decreases_to!(*node => element.children@[i]) by {
                    lemma_child_decreases(*node, *element, i);
                }
            }
            match count_children_owners(&element.children, Ghost(*node)) {
                Some(below) => below.checked_add(own),
                None => None,
            }
        },
    }
}

/// Counts the elements in `children` that register a callback; none where
/// the count does not fit.
fn count_children_owners(children: &Vec<Node>, Ghost(parent): Ghost<Node>) -> (count: Option<u64>)
    requires
        forall|i: int| 0 <= i < children@.len() ==> decreases_to!(parent => children@[i]),
    ensures
        match count {
            Some(c) => c == children_owners(children@, children@.len()),
            None => children_owners(children@, children@.len()) > u64::MAX,
        },
    decreases parent, 0nat,
{
    let mut total: u64 = 0;
    let mut i: usize = 0;
    while i < children.len()
        invariant
            i <= children.len(),
            forall|i: int| 0 <= i < children@.len() ==> decreases_to!(parent => children@[i]),
            total == children_owners(children@, i as nat),
        decreases children.len() - i,
    {
        proof {
            lemma_children_owners_monotonic(children@, (i + 1) as nat, children@.len());
        }
        let sum = match count_owners(&children[i]) {
            Some(c) => total.checked_add(c),
            None => None,
        };
        match sum {
            Some(s) => {
                total = s;
            },
            None => {
                return None;
            },
        }
        i = i + 1;
    }
    Some(total)
}

} // verus!
