use sauron::apply_patches::{apply_element_patch, apply_text_patch, patch};
use sauron::closures::{get_node_descendant_data_vdom_id, remove_event_listeners, ActiveClosure, Listener};
use sauron::create::mount;
use sauron::error::Error;
use sauron::html::{
    attr, checked, class, class_number, div, element, inner_html, key, li, main, on, style, text,
    ul, value,
};
use sauron::host::LiveTree;
use sauron::live::{HostOp, NodeKind};
use sauron::locate::find_nodes;
use sauron::patch::Patch;
use sauron::task::SingleTask;
use sauron::text::{decimal_string, parse_u32};
use sauron::vdom::{AttributeValue, Callback, Node, Value};

fn dump(tree: &LiveTree, node: usize) -> String {
    let mut out = String::new();
    match tree.kind(node) {
        NodeKind::Element => {
            out.push('<');
            out.push_str(tree.tag(node));
            for (name, value) in tree.attributes(node).iter() {
                out.push_str(&format!(" {}=\"{}\"", name, value));
            }
            out.push('>');
            for i in 0..tree.child_count(node) {
                out.push_str(&dump(tree, tree.child_at(node, i)));
            }
            out.push_str(&format!("</{}>", tree.tag(node)));
        }
        NodeKind::Text => out.push_str(tree.text(node)),
        NodeKind::Comment => out.push_str(&format!("<!--{}-->", tree.text(node))),
        NodeKind::Other => out.push_str("?"),
    }
    out
}

fn dumb() -> Option<&'static ()> {
    None
}

fn wired() -> Option<&'static ()> {
    Some(&())
}

fn sample() -> Node {
    div(
        vec![class("box")],
        vec![text("a"), text("b"), element("p", vec![], vec![text("c")])],
    )
}

fn rows(keyed: bool, order: [i64; 5]) -> Node {
    let items = order
        .iter()
        .map(|k| {
            let mark = if keyed { key(*k) } else { class_number(*k) };
            li(vec![mark], vec![text(&format!("item{}", k))])
        })
        .collect();
    main(vec![class("x")], vec![ul(vec![class("todo")], items)])
}

#[test]
fn mount_builds_the_tree_and_the_journal() {
    let (tree, closures) = mount(dumb(), &div(vec![class("a")], vec![text("x")]));
    assert_eq!(0, closures.len());
    assert_eq!(1, tree.root());
    assert_eq!(3, tree.len());
    assert_eq!("<div class=\"a\">x</div>", dump(&tree, tree.root()));
    assert_eq!(
        &vec![
            HostOp::CreateElement { node: 1, tag: "div".to_string() },
            HostOp::SetAttribute { node: 1, name: "class".to_string(), value: "a".to_string() },
            HostOp::CreateText { node: 2, text: "x".to_string() },
            HostOp::AppendChild { parent: 1, child: 2 },
            HostOp::ReplaceWith { node: 0, replacement: 1 },
        ],
        tree.journal()
    );
    assert_eq!(None, tree.parent(1));
    assert_eq!(Some(1), tree.parent(2));
    assert_eq!(Some(2), tree.last_child(1));
    assert_eq!(None, tree.last_child(2));
}

#[test]
fn mount_keeps_text_nodes_apart() {
    let (tree, _) = mount(dumb(), &sample());
    assert_eq!("<div class=\"box\">a<!--separator-->b<p>c</p></div>", dump(&tree, tree.root()));
    assert_eq!(NodeKind::Comment, tree.kind(3));
    assert_eq!(7, tree.len());
}

#[test]
fn mount_wires_callbacks_only_with_a_program() {
    let view = div(
        vec![],
        vec![
            element("button", vec![on("click", Callback { id: 11 }), class("b")], vec![text("a")]),
            element("button", vec![on("click", Callback { id: 12 }), on("input", Callback { id: 13 })], vec![]),
            element("span", vec![], vec![]),
        ],
    );
    let (tree, closures) = mount(wired(), &view);
    assert_eq!(2, closures.len());
    assert_eq!(
        Some(&vec![Listener { event: "click".to_string(), callback: Callback { id: 11 } }]),
        closures.get(0)
    );
    assert_eq!(
        Some(&vec![
            Listener { event: "click".to_string(), callback: Callback { id: 12 } },
            Listener { event: "input".to_string(), callback: Callback { id: 13 } },
        ]),
        closures.get(1)
    );
    assert_eq!(Some(0), tree.vdom_id(2));
    assert_eq!(Some(1), tree.vdom_id(4));
    assert_eq!(None, tree.vdom_id(5));
    assert_eq!(2, tree.next_vdom_id());
    assert!(tree.journal().contains(&HostOp::SetAttribute {
        node: 4,
        name: "data-sauron-vdom-id".to_string(),
        value: "1".to_string(),
    }));
    assert!(tree.journal().contains(&HostOp::AddEventListener {
        node: 4,
        vdom_id: 1,
        event: "input".to_string(),
        callback: Callback { id: 13 },
    }));
    assert_eq!("<div><button class=\"b\">a</button><button></button><span></span></div>", dump(&tree, 1));

    let (plain, none) = mount(dumb(), &view);
    assert_eq!(0, none.len());
    assert_eq!(None, plain.vdom_id(2));
    assert_eq!(0, plain.next_vdom_id());
    assert!(plain.journal().iter().all(|op| !matches!(op, HostOp::AddEventListener { .. })));
}

#[test]
fn find_nodes_counts_elements_and_text_only() {
    let (tree, _) = mount(dumb(), &sample());
    let patches = vec![
        Patch::ChangeText(2, "B".to_string()),
        Patch::AddAttributes("p".to_string(), 3, vec![class("q")]),
        Patch::ChangeText(9, "nowhere".to_string()),
        Patch::ChangeText(4, "C".to_string()),
        Patch::RemoveAttributes("div".to_string(), 0, vec!["class".to_string()]),
    ];
    let (elements, texts) = find_nodes(&tree, &patches);
    assert_eq!(2, elements.len());
    assert_eq!(Some(&1), elements.get(&0));
    assert_eq!(Some(&5), elements.get(&3));
    assert_eq!(2, texts.len());
    assert_eq!(Some(&4), texts.get(&2));
    assert_eq!(Some(&6), texts.get(&4));
}

#[test]
fn find_nodes_finds_only_what_is_wanted() {
    let (tree, _) = mount(dumb(), &sample());
    let (elements, texts) = find_nodes(&tree, &[]);
    assert!(elements.is_empty());
    assert!(texts.is_empty());
    let (elements, texts) = find_nodes(&tree, &[Patch::ChangeText(1, "A".to_string())]);
    assert!(elements.is_empty());
    assert_eq!(Some(&2), texts.get(&1));
    assert_eq!(1, texts.len());
}

#[test]
fn find_nodes_skips_a_root_that_is_neither_element_nor_text() {
    let tree = LiveTree::new(NodeKind::Other, "");
    let (elements, texts) = find_nodes(&tree, &[Patch::ChangeText(0, "x".to_string())]);
    assert!(elements.is_empty());
    assert!(texts.is_empty());
    let text_root = LiveTree::new(NodeKind::Text, "t");
    let (elements, texts) = find_nodes(&text_root, &[Patch::ChangeText(0, "x".to_string())]);
    assert!(elements.is_empty());
    assert_eq!(Some(&0), texts.get(&0));
}

#[test]
fn add_attributes_sets_and_uses_the_hosts_setters() {
    let (mut tree, mut registry) = mount(dumb(), &element("input", vec![class("a")], vec![]));
    tree.take_journal();
    let patches = vec![Patch::AddAttributes(
        "input".to_string(),
        0,
        vec![
            class("b"),
            value("typed"),
            checked(true),
            inner_html("<b>raw</b>"),
            attr("", AttributeValue::Simple(Value::Bool(false))),
            attr("id", AttributeValue::Simple(Value::Int(3))),
            attr("checked", AttributeValue::Simple(Value::Str("yes".to_string()))),
            attr("value", AttributeValue::EventCallback(Callback { id: 1 })),
        ],
    )];
    let created = patch(dumb(), &mut tree, &mut registry, &patches).expect("must apply");
    assert_eq!(0, created.len());
    assert_eq!("<input class=\"b\" id=\"3\"></input>", dump(&tree, 1));
    assert_eq!(
        &vec![
            HostOp::SetAttribute { node: 1, name: "class".to_string(), value: "b".to_string() },
            HostOp::SetValue { node: 1, value: "typed".to_string() },
            HostOp::SetChecked { node: 1, checked: true },
            HostOp::SetInnerHtml { node: 1, markup: "<b>raw</b>".to_string() },
            HostOp::SetAttribute { node: 1, name: "id".to_string(), value: "3".to_string() },
            HostOp::SetChecked { node: 1, checked: false },
            HostOp::SetValue { node: 1, value: "".to_string() },
        ],
        tree.journal()
    );
    assert_eq!(Some(&"b".to_string()), tree.attribute(1, "class"));
    assert_eq!(None, tree.attribute(1, "value"));
}

#[test]
fn remove_attributes_removes_by_name() {
    let (mut tree, mut registry) = mount(
        dumb(),
        &div(vec![class("a"), attr("id", AttributeValue::Simple(Value::Int(1)))], vec![]),
    );
    tree.take_journal();
    let patches = vec![Patch::RemoveAttributes(
        "div".to_string(),
        0,
        vec!["class".to_string(), "absent".to_string()],
    )];
    patch(dumb(), &mut tree, &mut registry, &patches).expect("must apply");
    assert_eq!("<div id=\"1\"></div>", dump(&tree, 1));
    assert_eq!(
        &vec![
            HostOp::RemoveAttribute { node: 1, name: "class".to_string() },
            HostOp::RemoveAttribute { node: 1, name: "absent".to_string() },
        ],
        tree.journal()
    );
}

#[test]
fn change_text_sets_the_content() {
    let (mut tree, mut registry) = mount(dumb(), &sample());
    tree.take_journal();
    let patches = vec![Patch::ChangeText(2, "B".to_string())];
    patch(dumb(), &mut tree, &mut registry, &patches).expect("must apply");
    assert_eq!("<div class=\"box\">a<!--separator-->B<p>c</p></div>", dump(&tree, 1));
    assert_eq!(&vec![HostOp::SetText { node: 4, text: "B".to_string() }], tree.journal());
}

#[test]
fn append_children_builds_and_appends_in_order() {
    let (mut tree, mut registry) = mount(wired(), &div(vec![], vec![text("a")]));
    tree.take_journal();
    let patches = vec![Patch::AppendChildren(
        "div".to_string(),
        0,
        vec![
            element("button", vec![on("click", Callback { id: 5 })], vec![]),
            text("z"),
        ],
    )];
    let created = patch(wired(), &mut tree, &mut registry, &patches).expect("must apply");
    assert_eq!("<div>a<button></button>z</div>", dump(&tree, 1));
    assert_eq!(1, created.len());
    assert_eq!(
        Some(&vec![Listener { event: "click".to_string(), callback: Callback { id: 5 } }]),
        created.get(0)
    );
    assert_eq!(0, registry.len());
    assert_eq!(
        &vec![
            HostOp::CreateElement { node: 3, tag: "button".to_string() },
            HostOp::SetAttribute { node: 3, name: "data-sauron-vdom-id".to_string(), value: "0".to_string() },
            HostOp::AddEventListener { node: 3, vdom_id: 0, event: "click".to_string(), callback: Callback { id: 5 } },
            HostOp::AppendChild { parent: 1, child: 3 },
            HostOp::CreateText { node: 4, text: "z".to_string() },
            HostOp::AppendChild { parent: 1, child: 4 },
        ],
        tree.journal()
    );
}

fn buttons() -> Node {
    div(
        vec![],
        vec![
            element(
                "section",
                vec![on("click", Callback { id: 1 })],
                vec![element("button", vec![on("click", Callback { id: 2 })], vec![text("a")])],
            ),
            element("button", vec![on("click", Callback { id: 3 })], vec![text("b")]),
        ],
    )
}

#[test]
fn descendant_ids_come_self_first() {
    let (tree, _) = mount(wired(), &buttons());
    assert_eq!(vec![0, 1, 2], get_node_descendant_data_vdom_id(&tree, 1));
    assert_eq!(vec![0, 1], get_node_descendant_data_vdom_id(&tree, 2));
    assert_eq!(vec![2], get_node_descendant_data_vdom_id(&tree, 5));
    assert_eq!(Vec::<u32>::new(), get_node_descendant_data_vdom_id(&tree, 4));
}

#[test]
fn retire_unregisters_and_forgets() {
    let (mut tree, mut registry) = mount(wired(), &buttons());
    tree.take_journal();
    remove_event_listeners(&mut tree, 2, &mut registry).expect("must retire");
    assert_eq!(1, registry.len());
    assert!(registry.contains(2));
    assert!(!registry.contains(0));
    assert!(!registry.contains(1));
    assert_eq!(
        &vec![
            HostOp::RemoveEventListener { node: 2, vdom_id: 0, event: "click".to_string(), callback: Callback { id: 1 } },
            HostOp::RemoveEventListener { node: 2, vdom_id: 1, event: "click".to_string(), callback: Callback { id: 2 } },
        ],
        tree.journal()
    );
}

#[test]
fn retire_fails_on_a_missing_entry() {
    let (mut tree, mut registry) = mount(wired(), &buttons());
    registry.remove(1);
    assert_eq!(Err(Error::RegistryInconsistency), remove_event_listeners(&mut tree, 2, &mut registry));
    assert!(!registry.contains(0));
    assert!(registry.contains(2));
    let mut empty = ActiveClosure::new();
    assert_eq!(Err(Error::RegistryInconsistency), remove_event_listeners(&mut tree, 5, &mut empty));
}

#[test]
fn replace_retires_the_old_and_registers_the_new() {
    let (mut tree, mut registry) = mount(wired(), &buttons());
    tree.take_journal();
    let patches = vec![Patch::Replace(
        "section".to_string(),
        1,
        element("a", vec![on("click", Callback { id: 9 })], vec![text("link")]),
    )];
    let created = patch(wired(), &mut tree, &mut registry, &patches).expect("must apply");
    assert_eq!("<div><a>link</a><button>b</button></div>", dump(&tree, 1));
    assert_eq!(1, registry.len());
    assert!(registry.contains(2));
    assert_eq!(1, created.len());
    assert_eq!(
        Some(&vec![Listener { event: "click".to_string(), callback: Callback { id: 9 } }]),
        created.get(3)
    );
    assert_eq!(None, tree.parent(2));
    assert_eq!(Some(1), tree.parent(7));
    assert_eq!(
        &vec![
            HostOp::RemoveEventListener { node: 2, vdom_id: 0, event: "click".to_string(), callback: Callback { id: 1 } },
            HostOp::RemoveEventListener { node: 2, vdom_id: 1, event: "click".to_string(), callback: Callback { id: 2 } },
            HostOp::CreateElement { node: 7, tag: "a".to_string() },
            HostOp::SetAttribute { node: 7, name: "data-sauron-vdom-id".to_string(), value: "3".to_string() },
            HostOp::AddEventListener { node: 7, vdom_id: 3, event: "click".to_string(), callback: Callback { id: 9 } },
            HostOp::CreateText { node: 8, text: "link".to_string() },
            HostOp::AppendChild { parent: 7, child: 8 },
            HostOp::ReplaceWith { node: 2, replacement: 7 },
        ],
        tree.journal()
    );
}

#[test]
fn replace_of_the_root_moves_the_root() {
    let (mut tree, mut registry) = mount(dumb(), &div(vec![], vec![text("x")]));
    let patches = vec![Patch::Replace("div".to_string(), 0, text("only"))];
    patch(dumb(), &mut tree, &mut registry, &patches).expect("must apply");
    assert_eq!(3, tree.root());
    assert_eq!("only", dump(&tree, tree.root()));
}

#[test]
fn replace_of_a_text_node() {
    let (mut tree, mut registry) = mount(wired(), &div(vec![], vec![text("x")]));
    let patches = vec![Patch::Replace(
        "b".to_string(),
        1,
        element("b", vec![on("click", Callback { id: 4 })], vec![]),
    )];
    let created = patch(wired(), &mut tree, &mut registry, &patches).expect("must apply");
    assert_eq!("<div><b></b></div>", dump(&tree, 1));
    assert_eq!(1, created.len());
    assert!(created.contains(0));
}

#[test]
fn replace_fails_when_the_registry_lacks_an_entry() {
    let (mut tree, _) = mount(wired(), &buttons());
    let mut registry = ActiveClosure::new();
    let patches = vec![Patch::Replace("section".to_string(), 1, text("t"))];
    assert_eq!(
        Some(Error::RegistryInconsistency),
        patch(wired(), &mut tree, &mut registry, &patches).err()
    );
}

#[test]
fn truncate_drops_from_the_end_and_retires() {
    let view = div(
        vec![],
        vec![
            element("i", vec![], vec![]),
            element("b", vec![on("click", Callback { id: 1 })], vec![]),
            text("t"),
        ],
    );
    let (mut tree, mut registry) = mount(wired(), &view);
    tree.take_journal();
    let patches = vec![Patch::TruncateChildren("div".to_string(), 0, 1)];
    let created = patch(wired(), &mut tree, &mut registry, &patches).expect("must apply");
    assert_eq!(0, created.len());
    assert_eq!("<div><i></i></div>", dump(&tree, 1));
    assert_eq!(0, registry.len());
    assert_eq!(
        &vec![
            HostOp::RemoveChild { parent: 1, child: 4 },
            HostOp::RemoveEventListener { node: 3, vdom_id: 0, event: "click".to_string(), callback: Callback { id: 1 } },
            HostOp::RemoveChild { parent: 1, child: 3 },
        ],
        tree.journal()
    );
}

#[test]
fn truncate_to_nothing_removes_every_child() {
    let (mut tree, mut registry) = mount(wired(), &buttons());
    let patches = vec![Patch::TruncateChildren("div".to_string(), 0, 0)];
    patch(wired(), &mut tree, &mut registry, &patches).expect("must apply");
    assert_eq!("<div></div>", dump(&tree, 1));
    assert_eq!(0, tree.child_count(1));
    assert_eq!(0, registry.len());
}

#[test]
fn truncate_to_the_current_count_changes_nothing() {
    let (mut tree, mut registry) = mount(wired(), &buttons());
    tree.take_journal();
    let before = dump(&tree, 1);
    let patches = vec![Patch::TruncateChildren("div".to_string(), 0, 2)];
    patch(wired(), &mut tree, &mut registry, &patches).expect("must apply");
    assert_eq!(before, dump(&tree, 1));
    assert_eq!(3, registry.len());
    assert!(tree.journal().is_empty());
}

#[test]
fn truncate_to_nothing_leaves_only_the_comments() {
    let (mut tree, mut registry) = mount(dumb(), &div(vec![], vec![text("a"), text("b")]));
    assert_eq!("<div>a<!--separator-->b</div>", dump(&tree, 1));
    let patches = vec![Patch::TruncateChildren("div".to_string(), 0, 0)];
    patch(dumb(), &mut tree, &mut registry, &patches).expect("must apply");
    assert_eq!("<div><!--separator--></div>", dump(&tree, 1));
    let mut wide = LiveTree::new(NodeKind::Element, "div");
    for (kind, content) in [
        (NodeKind::Comment, "c1"),
        (NodeKind::Text, "a"),
        (NodeKind::Comment, "c2"),
        (NodeKind::Element, "p"),
        (NodeKind::Comment, "c3"),
    ] {
        let child = wide.adopt(kind, content);
        wide.append_child(0, child);
    }
    wide.take_journal();
    let mut none = ActiveClosure::new();
    patch(dumb(), &mut wide, &mut none, &patches).expect("must apply");
    assert_eq!("<div><!--c1--><!--c2--><!--c3--></div>", dump(&wide, 0));
    assert_eq!(
        &vec![
            HostOp::RemoveChild { parent: 0, child: 4 },
            HostOp::RemoveChild { parent: 0, child: 2 },
        ],
        wide.journal()
    );
}

#[test]
fn truncate_does_not_count_comments() {
    let (mut tree, mut registry) = mount(dumb(), &sample());
    assert_eq!("<div class=\"box\">a<!--separator-->b<p>c</p></div>", dump(&tree, 1));
    let one = vec![Patch::TruncateChildren("div".to_string(), 0, 1)];
    let (mut kept_one, mut r1) = mount(dumb(), &sample());
    patch(dumb(), &mut kept_one, &mut r1, &one).expect("must apply");
    assert_eq!("<div class=\"box\">a<!--separator--></div>", dump(&kept_one, 1));
    let two = vec![Patch::TruncateChildren("div".to_string(), 0, 2)];
    let (mut kept_two, mut r2) = mount(dumb(), &sample());
    patch(dumb(), &mut kept_two, &mut r2, &two).expect("must apply");
    assert_eq!("<div class=\"box\">a<!--separator-->b</div>", dump(&kept_two, 1));
    tree.take_journal();
    for remaining in [3, 4] {
        let all = vec![Patch::TruncateChildren("div".to_string(), 0, remaining)];
        patch(dumb(), &mut tree, &mut registry, &all).expect("must apply");
        assert_eq!("<div class=\"box\">a<!--separator-->b<p>c</p></div>", dump(&tree, 1));
        assert!(tree.journal().is_empty());
    }
    let many = vec![Patch::TruncateChildren("div".to_string(), 0, 5)];
    assert_eq!(
        Some(Error::StructuralInconsistency),
        patch(dumb(), &mut tree, &mut registry, &many).err()
    );
}

#[test]
fn add_attributes_sets_the_empty_text_for_what_is_no_scalar() {
    let (mut tree, mut registry) = mount(dumb(), &div(vec![], vec![]));
    tree.take_journal();
    let patches = vec![Patch::AddAttributes(
        "div".to_string(),
        0,
        vec![
            style("color", "red"),
            on("click", Callback { id: 1 }),
            attr("data-raw", AttributeValue::FunctionCall("<b>".to_string())),
            class("a"),
        ],
    )];
    patch(dumb(), &mut tree, &mut registry, &patches).expect("must apply");
    assert_eq!(
        &vec![
            HostOp::SetAttribute { node: 1, name: "style".to_string(), value: "".to_string() },
            HostOp::SetAttribute { node: 1, name: "click".to_string(), value: "".to_string() },
            HostOp::SetAttribute { node: 1, name: "data-raw".to_string(), value: "".to_string() },
            HostOp::SetAttribute { node: 1, name: "class".to_string(), value: "a".to_string() },
        ],
        tree.journal()
    );
    let (built, _) = mount(dumb(), &div(vec![style("color", "red")], vec![]));
    assert_eq!("<div style=\"color:red;\"></div>", dump(&built, 1));
}

#[test]
fn truncate_cannot_keep_more_than_there_is() {
    let (mut tree, mut registry) = mount(dumb(), &div(vec![], vec![text("a")]));
    let patches = vec![Patch::TruncateChildren("div".to_string(), 0, 2)];
    assert_eq!(
        Some(Error::StructuralInconsistency),
        patch(dumb(), &mut tree, &mut registry, &patches).err()
    );
}

#[test]
fn a_patch_without_a_located_target_fails() {
    let (mut tree, mut registry) = mount(dumb(), &div(vec![], vec![text("a")]));
    let patches = vec![
        Patch::ChangeText(1, "b".to_string()),
        Patch::ChangeText(5, "c".to_string()),
        Patch::ChangeText(1, "d".to_string()),
    ];
    assert_eq!(
        Some(Error::StructuralInconsistency),
        patch(dumb(), &mut tree, &mut registry, &patches).err()
    );
    assert_eq!("<div>b</div>", dump(&tree, 1));
}

#[test]
fn a_patch_of_the_wrong_kind_fails() {
    let (mut tree, mut registry) = mount(dumb(), &div(vec![], vec![text("a")]));
    assert_eq!(
        Some(Error::StructuralInconsistency),
        patch(dumb(), &mut tree, &mut registry, &[Patch::ChangeText(0, "b".to_string())]).err()
    );
    assert_eq!(
        Some(Error::StructuralInconsistency),
        patch(
            dumb(),
            &mut tree,
            &mut registry,
            &[Patch::AddAttributes("div".to_string(), 1, vec![class("a")])]
        )
        .err()
    );
    assert_eq!(
        Some(Error::StructuralInconsistency),
        apply_element_patch(dumb(), &mut tree, 2, &mut registry, &Patch::TruncateChildren("x".to_string(), 1, 0)).err()
    );
    assert_eq!(
        Some(Error::StructuralInconsistency),
        apply_text_patch(dumb(), &mut tree, 1, &Patch::ChangeText(0, "b".to_string())).err()
    );
    assert_eq!(
        Some(Error::StructuralInconsistency),
        apply_text_patch(dumb(), &mut tree, 2, &Patch::TruncateChildren("x".to_string(), 1, 0)).err()
    );
}

#[test]
fn single_patches_can_be_applied_to_a_node() {
    let (mut tree, mut registry) = mount(dumb(), &div(vec![], vec![text("a")]));
    let created = apply_element_patch(
        wired(),
        &mut tree,
        1,
        &mut registry,
        &Patch::AppendChildren("div".to_string(), 0, vec![element("b", vec![on("click", Callback { id: 1 })], vec![])]),
    )
    .expect("must apply");
    assert_eq!(1, created.len());
    let none = apply_text_patch(dumb(), &mut tree, 2, &Patch::ChangeText(1, "z".to_string()))
        .expect("must apply");
    assert_eq!(0, none.len());
    assert_eq!("<div>z<b></b></div>", dump(&tree, 1));
}

#[test]
fn patches_use_the_numbering_from_before_the_first_patch() {
    let (mut tree, mut registry) = mount(dumb(), &sample());
    let patches = vec![
        Patch::Replace("div".to_string(), 1, div(vec![], vec![text("x"), text("y")])),
        Patch::ChangeText(2, "B".to_string()),
        Patch::AddAttributes("p".to_string(), 3, vec![class("q")]),
    ];
    patch(dumb(), &mut tree, &mut registry, &patches).expect("must apply");
    assert_eq!(
        "<div class=\"box\"><div>x<!--separator-->y</div><!--separator-->B<p class=\"q\">c</p></div>",
        dump(&tree, 1)
    );
}

#[test]
fn swap_rows_non_keyed() {
    let old = rows(false, [1, 2, 3, 4, 5]);
    let update1 = rows(false, [1, 4, 3, 2, 5]);
    let patches = vec![
        Patch::AddAttributes("li".to_string(), 4, vec![class_number(4)]),
        Patch::ChangeText(5, "item4".to_string()),
        Patch::AddAttributes("li".to_string(), 8, vec![class_number(2)]),
        Patch::ChangeText(9, "item2".to_string()),
    ];
    let (mut tree, mut registry) = mount(dumb(), &old);
    patch(dumb(), &mut tree, &mut registry, &patches).expect("must not error");
    let (expected, _) = mount(dumb(), &update1);
    assert_eq!(dump(&expected, expected.root()), dump(&tree, tree.root()));
    assert_eq!(
        "<main class=\"x\"><ul class=\"todo\"><li class=\"1\">item1</li><li class=\"4\">item4</li><li class=\"3\">item3</li><li class=\"2\">item2</li><li class=\"5\">item5</li></ul></main>",
        dump(&tree, tree.root())
    );
}

#[test]
fn swap_rows_keyed() {
    let old = rows(true, [1, 2, 3, 4, 5]);
    let update1 = rows(true, [1, 4, 3, 2, 5]);
    let patches = vec![
        Patch::Replace("li".to_string(), 4, li(vec![key(4)], vec![text("item4")])),
        Patch::Replace("li".to_string(), 8, li(vec![key(2)], vec![text("item2")])),
    ];
    let (mut tree, mut registry) = mount(dumb(), &old);
    patch(dumb(), &mut tree, &mut registry, &patches).expect("must not error");
    let (expected, _) = mount(dumb(), &update1);
    assert_eq!(dump(&expected, expected.root()), dump(&tree, tree.root()));
}

#[test]
fn no_callback_leaks_after_replace_and_truncate() {
    let (mut tree, mut registry) = mount(wired(), &buttons());
    let patches = vec![
        Patch::Replace("button".to_string(), 2, element("em", vec![on("click", Callback { id: 8 })], vec![])),
        Patch::TruncateChildren("div".to_string(), 0, 1),
    ];
    let created = patch(wired(), &mut tree, &mut registry, &patches).expect("must apply");
    assert!(!registry.contains(1));
    assert!(!registry.contains(2));
    assert_eq!(
        Some(&vec![Listener { event: "click".to_string(), callback: Callback { id: 1 } }]),
        registry.get(0)
    );
    assert!(created.contains(3));
    let live: Vec<u32> = get_node_descendant_data_vdom_id(&tree, tree.root());
    assert_eq!(vec![0, 3], live);
    for id in live {
        assert!(registry.contains(id) || created.contains(id));
    }
}

#[test]
fn tree_primitives() {
    let mut tree = LiveTree::new(NodeKind::Element, "root");
    let child = tree.create_element("a");
    let leaf = tree.create_text("t");
    let note = tree.create_comment("n");
    tree.append_child(0, child);
    tree.append_child(child, leaf);
    tree.append_child(0, note);
    tree.set_attribute(child, "href", "x");
    tree.set_attribute(child, "rel", "y");
    tree.set_attribute(child, "href", "z");
    assert_eq!("<root><a href=\"z\" rel=\"y\">t</a><!--n--></root>", dump(&tree, 0));
    tree.remove_attribute(child, "href");
    tree.set_text(leaf, "u");
    tree.remove_child(0, note);
    tree.remove_child(0, leaf);
    assert_eq!("<root><a rel=\"y\">u</a></root>", dump(&tree, 0));
    let id = tree.assign_vdom_id(child);
    assert_eq!(0, id);
    assert_eq!(1, tree.assign_vdom_id(0));
    let other = tree.create_element("b");
    tree.replace_with(child, other);
    assert_eq!("<root><b></b></root>", dump(&tree, 0));
    let spare = tree.create_text("s");
    tree.replace_with(note, spare);
    assert_eq!("<root><b></b></root>", dump(&tree, 0));
    assert_eq!(None, tree.parent(spare));
    tree.set_value(other, "v");
    tree.set_checked(other, true);
    tree.set_inner_html(other, "<i>");
    tree.add_event_listener(other, 0, "click", Callback { id: 1 });
    tree.remove_event_listener(other, 0, "click", Callback { id: 1 });
    let ops = tree.take_journal();
    assert_eq!(24, ops.len());
    assert!(tree.journal().is_empty());
    assert_eq!(HostOp::RemoveChild { parent: 0, child: 2 }, ops[12]);
    assert_eq!(HostOp::ReplaceWith { node: 1, replacement: 4 }, ops[16]);
    assert_eq!(HostOp::ReplaceWith { node: 3, replacement: 5 }, ops[18]);
}

#[test]
fn registry_entries() {
    let mut registry = ActiveClosure::new();
    assert_eq!(0, registry.len());
    registry.insert(4, vec![Listener { event: "click".to_string(), callback: Callback { id: 1 } }]);
    registry.insert(4, vec![]);
    registry.insert(5, vec![]);
    assert_eq!(2, registry.len());
    assert_eq!(Some(&vec![]), registry.get(4));
    assert_eq!(None, registry.get(6));
    assert_eq!(Some(vec![]), registry.remove(4));
    assert_eq!(None, registry.remove(4));
    assert!(registry.contains(5));
}

#[test]
fn patch_accessors() {
    let p = Patch::TruncateChildren("ul".to_string(), 7, 2);
    assert_eq!(7, p.node_idx());
    assert_eq!(Some(&"ul".to_string()), p.tag());
    let c = Patch::ChangeText(3, "t".to_string());
    assert_eq!(3, c.node_idx());
    assert_eq!(None, c.tag());
}

#[test]
fn single_task_yields_once() {
    let mut task = SingleTask::new(41);
    assert!(!task.is_complete());
    assert_eq!(Some(41), task.next());
    assert!(task.is_complete());
    assert_eq!(None, task.next());
    let mapped = SingleTask::new(1).map_msg("f");
    let mut mapped = mapped;
    let work = mapped.next().expect("one outcome");
    assert_eq!((1, "f"), (work.work, work.map));
    assert_eq!(true, mapped.next().is_none());
    let mut done = SingleTask::new(2);
    done.next();
    assert!(done.map_msg(0).is_complete());
    let mut never = SingleTask::<u8>::completed();
    assert!(never.is_complete());
    assert_eq!(None, never.next());
}

#[test]
fn adopted_nodes_leave_no_journal() {
    let mut tree = LiveTree::new(NodeKind::Element, "div");
    let p = tree.adopt(NodeKind::Element, "p");
    let t = tree.adopt(NodeKind::Text, "hello");
    let c = tree.adopt(NodeKind::Comment, "note");
    let o = tree.adopt(NodeKind::Other, "");
    assert_eq!((1, 2, 3, 4), (p, t, c, o));
    assert!(tree.journal().is_empty());
    tree.append_child(0, p);
    tree.append_child(p, t);
    tree.append_child(0, c);
    tree.append_child(0, o);
    tree.take_journal();
    assert_eq!("<div><p>hello</p><!--note-->?</div>", dump(&tree, 0));
    assert_eq!("p", tree.tag(p));
    assert_eq!("hello", tree.text(t));
    assert_eq!(NodeKind::Other, tree.kind(o));
    let (elements, texts) = find_nodes(
        &tree,
        &[
            Patch::ChangeText(2, "x".to_string()),
            Patch::ChangeText(3, "y".to_string()),
            Patch::ChangeText(1, "z".to_string()),
        ],
    );
    assert_eq!(Some(&1), elements.get(&1));
    assert_eq!(1, elements.len());
    assert_eq!(Some(&2), texts.get(&2));
    assert_eq!(1, texts.len());
}

#[test]
fn adopted_identifiers_are_unique() {
    let mut tree = LiveTree::new(NodeKind::Element, "div");
    let p = tree.adopt(NodeKind::Element, "p");
    let t = tree.adopt(NodeKind::Text, "hello");
    assert!(tree.adopt_vdom_id(0, 7));
    assert_eq!(8, tree.next_vdom_id());
    assert!(!tree.adopt_vdom_id(p, 7));
    assert!(!tree.adopt_vdom_id(t, 3));
    assert!(!tree.adopt_vdom_id(p, u32::MAX));
    assert!(tree.adopt_vdom_id(p, 3));
    assert_eq!(8, tree.next_vdom_id());
    assert_eq!(Some(7), tree.vdom_id(0));
    assert_eq!(Some(3), tree.vdom_id(p));
    assert_eq!(None, tree.vdom_id(t));
    assert_eq!(8, tree.assign_vdom_id(p));
    assert!(tree.adopt_marker(p, "12"));
    assert_eq!(Some(12), tree.vdom_id(p));
    assert_eq!(13, tree.next_vdom_id());
    assert!(!tree.adopt_marker(p, "twelve"));
    assert!(!tree.adopt_marker(p, ""));
    assert!(!tree.adopt_marker(0, "12"));
    assert_eq!(Some(12), tree.vdom_id(p));
}

#[test]
fn marker_text_is_read_as_decimal() {
    assert_eq!(Some(0), parse_u32("0"));
    assert_eq!(Some(42), parse_u32("42"));
    assert_eq!(Some(7), parse_u32("007"));
    assert_eq!(Some(u32::MAX), parse_u32("4294967295"));
    assert_eq!(None, parse_u32("4294967296"));
    assert_eq!(None, parse_u32("99999999999999999999999"));
    assert_eq!(None, parse_u32(""));
    assert_eq!(None, parse_u32("+1"));
    assert_eq!(None, parse_u32("-1"));
    assert_eq!(None, parse_u32("1 "));
    assert_eq!(None, parse_u32("1a"));
    for n in [0u32, 9, 10, 1234, u32::MAX] {
        assert_eq!(Some(n), parse_u32(&decimal_string(n as u64)));
    }
}

#[test]
fn every_live_identifier_is_accounted_for() {
    let (mut tree, mut registry) = mount(wired(), &buttons());
    let patches = vec![
        Patch::Replace("section".to_string(), 1, element("u", vec![on("click", Callback { id: 21 })], vec![])),
        Patch::AddAttributes("button".to_string(), 4, vec![class("c")]),
        Patch::AppendChildren(
            "div".to_string(),
            0,
            vec![element("i", vec![on("click", Callback { id: 20 })], vec![])],
        ),
    ];
    let created = patch(wired(), &mut tree, &mut registry, &patches).expect("must apply");
    assert_eq!("<div><u></u><button class=\"c\">b</button><i></i></div>", dump(&tree, 1));
    let live = get_node_descendant_data_vdom_id(&tree, tree.root());
    assert_eq!(vec![3, 2, 4], live);
    for id in live {
        assert!(registry.contains(id) || created.contains(id));
    }
    assert!(!registry.contains(0));
    assert!(!registry.contains(1));
    assert_eq!(1, registry.len());
    assert_eq!(2, created.len());
}

#[test]
fn callbacks_of_this_cycle_cannot_be_retired_in_it() {
    let (mut tree, mut registry) = mount(wired(), &buttons());
    let patches = vec![
        Patch::AppendChildren(
            "div".to_string(),
            0,
            vec![element("i", vec![on("click", Callback { id: 20 })], vec![])],
        ),
        Patch::TruncateChildren("div".to_string(), 0, 2),
    ];
    assert_eq!(
        Some(Error::RegistryInconsistency),
        patch(wired(), &mut tree, &mut registry, &patches).err()
    );
}

#[test]
fn a_root_of_another_kind_holds_children() {
    let mut tree = LiveTree::new(NodeKind::Other, "");
    let p = tree.adopt(NodeKind::Element, "p");
    let t = tree.adopt(NodeKind::Text, "x");
    tree.append_child(0, p);
    tree.append_child(p, t);
    let (elements, texts) = find_nodes(
        &tree,
        &[
            Patch::ChangeText(0, "r".to_string()),
            Patch::ChangeText(1, "p".to_string()),
            Patch::ChangeText(2, "t".to_string()),
        ],
    );
    assert_eq!(1, elements.len());
    assert_eq!(Some(&1), elements.get(&1));
    assert_eq!(1, texts.len());
    assert_eq!(Some(&2), texts.get(&2));
}
