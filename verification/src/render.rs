//! Rendering of a declarative tree as indented markup.
use vstd::prelude::*;
use vstd::string::StringExecFns;
use crate::merge::{
    group_of, groups_of, lemma_group_of_bounds, lemma_grouped_valid, lemma_groups_are_positions,
    lemma_positions_pair, merge_positions, names_of,
};
use crate::text::{indentation, lemma_indentation_step, push_indentation};
use crate::vdom::{lemma_child_decreases, Attribute, AttributeValue, Element, Node, Style};

verus! {

#[verifier::external_type_specification]
#[verifier::external_body]
pub struct ExFmtError(std::fmt::Error);

/// The first `n` style declarations, each followed by a semicolon.
pub open spec fn styles_markup(styles: Seq<Style>, n: nat) -> Seq<char>
    decreases n,
{
    if n == 0 || n > styles.len() {
        Seq::empty()
    } else {
        styles_markup(styles, (n - 1) as nat) + styles[n - 1].text() + ";"@
    }
}

/// The markup of one attribute value. Callbacks and raw markup leave no
/// trace in rendered text.
pub open spec fn value_markup(value: AttributeValue) -> Seq<char> {
    match value {
        AttributeValue::Simple(v) => v.text(),
        AttributeValue::Style(styles) => styles_markup(styles@, styles@.len()),
        _ => Seq::empty(),
    }
}

/// Whether a space separates the value at position `i` from what precedes
/// it: not before the first value, a style, or a callback.
pub open spec fn spaced(values: Seq<AttributeValue>, i: int) -> bool {
    i > 0 && !(values[i] is Style) && !(values[i] is EventCallback)
}

/// The markup of the first `n` values of an attribute.
pub open spec fn values_markup(values: Seq<AttributeValue>, n: nat) -> Seq<char>
    decreases n,
{
    if n == 0 || n > values.len() {
        Seq::empty()
    } else {
        values_markup(values, (n - 1) as nat) + (if spaced(values, n - 1) {
            " "@
        } else {
            Seq::empty()
        }) + value_markup(values[n - 1])
    }
}

/// The markup of an attribute: its name, and its values between quotes.
pub open spec fn attribute_markup(name: Seq<char>, values: Seq<AttributeValue>) -> Seq<char> {
    name + "=\""@ + values_markup(values, values.len()) + "\""@
}

/// The values of the attributes at the first `n` positions of `group`, in
/// order.
pub open spec fn merged_values(attrs: Seq<Attribute>, group: Seq<usize>, n: nat) -> Seq<
    AttributeValue,
>
    decreases n,
{
    if n == 0 || n > group.len() {
        Seq::empty()
    } else {
        merged_values(attrs, group, (n - 1) as nat) + attrs[group[n - 1] as int].value@
    }
}

/// The markup of the merged attribute of one group.
pub open spec fn group_markup(attrs: Seq<Attribute>, group: Seq<usize>) -> Seq<char> {
    attribute_markup(attrs[group[0] as int].name@, merged_values(attrs, group, group.len()))
}

/// The markup of the merged attributes of the first `n` groups, each after
/// a space.
pub open spec fn groups_markup(attrs: Seq<Attribute>, groups: Seq<Seq<usize>>, n: nat) -> Seq<
    char,
>
    decreases n,
{
    if n == 0 || n > groups.len() {
        Seq::empty()
    } else {
        groups_markup(attrs, groups, (n - 1) as nat) + " "@ + group_markup(attrs, groups[n - 1])
    }
}

/// The opening tag of an element, with its attributes merged by name.
pub open spec fn opening_markup(element: Element) -> Seq<char> {
    "<"@ + element.tag@ + groups_markup(
        element.attrs@,
        groups_of(element.attrs@),
        groups_of(element.attrs@).len(),
    ) + ">"@
}

/// The closing tag of an element.
pub open spec fn closing_markup(element: Element) -> Seq<char> {
    "</"@ + element.tag@ + ">"@
}

/// Whether the element's only child is a text leaf.
pub open spec fn lone_text(element: Element) -> bool {
    element.children@.len() == 1 && element.children@[0] is Text
}

/// The markup of a node at the given depth of indentation.
pub open spec fn node_markup(node: Node, indent: nat) -> Seq<char>
    decreases node,
{
    match node {
        Node::Text(t) => t@,
        Node::Element(e) => element_markup(e, indent),
    }
}

/// The markup of an element. A lone text child stays on the line of the
/// opening tag. Otherwise each child stands on a line of its own, one level
/// deeper, and the closing tag on a new line at the element's own depth; an
/// element without children closes at once.
pub open spec fn element_markup(element: Element, indent: nat) -> Seq<char>
    decreases element,
{
    if lone_text(element) {
        opening_markup(element) + element.children@[0]->Text_0@ + closing_markup(element)
    } else if element.children@.len() == 0 {
        opening_markup(element) + closing_markup(element)
    } else {
        opening_markup(element) + children_markup(
            element.children@,
            element.children@.len(),
            indent + 1,
        ) + "\n"@ + indentation(indent) + closing_markup(element)
    }
}

/// The markup of the first `n` children, each on a new line at depth
/// `indent`.
pub open spec fn children_markup(children: Seq<Node>, n: nat, indent: nat) -> Seq<char>
    decreases children, n,
{
    if n == 0 || n > children.len() {
        Seq::empty()
    } else {
        children_markup(children, (n - 1) as nat, indent) + "\n"@ + indentation(indent)
            + node_markup(children[n - 1], indent)
    }
}

/// Rendering to a text buffer.
pub trait Render {
    /// The text that rendering at depth `indent` appends.
    spec fn rendered(&self, indent: nat) -> Seq<char>;

    /// The number of nodes below this one that rendering passes: the
    /// elements and text nodes at every depth.
    spec fn descendants(&self) -> nat;

    /// Appends the rendered text, starting at depth 0.
    fn render(&self, buffer: &mut String) -> (r: Result<(), std::fmt::Error>)
        ensures
            r is Ok,
            final(buffer)@ == old(buffer)@ + self.rendered(0),
    {
        let mut node_idx: Option<usize> = None;
        self.render_with_indent(buffer, 0, &mut node_idx)
    }

    /// Appends the rendered text, starting at depth `indent`. Where
    /// `node_idx` counts, it stands at the index of this node in document
    /// order and is advanced to that of the last node below it.
    fn render_with_indent(
        &self,
        buffer: &mut String,
        indent: usize,
        node_idx: &mut Option<usize>,
    ) -> (r: Result<(), std::fmt::Error>)
        requires
            *old(node_idx) is Some ==> old(node_idx)->0 + self.descendants() <= usize::MAX,
        ensures
            r is Ok,
            final(buffer)@ == old(buffer)@ + self.rendered(indent as nat),
            *final(node_idx) == advanced(*old(node_idx), self.descendants()),
    ;
}

/// A counter advanced by `by`; one that does not count stays so.
pub open spec fn advanced(node_idx: Option<usize>, by: nat) -> Option<usize> {
    match node_idx {
        Some(n) => Some((n + by) as usize),
        None => None,
    }
}

/// The number of nodes below `node`.
pub open spec fn node_descendants(node: Node) -> nat
    decreases node,
{
    match node {
        Node::Text(_) => 0,
        Node::Element(e) => element_descendants(e),
    }
}

/// The number of nodes below `element`.
pub open spec fn element_descendants(element: Element) -> nat
    decreases element,
{
    children_nodes(element.children@, element.children@.len())
}

/// The number of nodes that the first `k` of `children` are, with those
/// below them.
pub open spec fn children_nodes(children: Seq<Node>, k: nat) -> nat
    decreases children, k,
{
    if k == 0 || k > children.len() {
        0
    } else {
        children_nodes(children, (k - 1) as nat) + 1 + node_descendants(children[k - 1])
    }
}

/// The nodes among the first `i` children are among those of the first
/// `j`.
proof fn lemma_children_nodes_monotonic(children: Seq<Node>, i: nat, j: nat)
    requires
        i <= j <= children.len(),
    ensures
        children_nodes(children, i) <= children_nodes(children, j),
    decreases j,
{
    if i < j {
        lemma_children_nodes_monotonic(children, i, (j - 1) as nat);
    }
}

/// The index of the last node below `node`, where `node` stands at
/// `node_idx`.
fn advance_node(node: &Node, node_idx: usize) -> (last: usize)
    requires
        node_idx + node_descendants(*node) <= usize::MAX,
    ensures
        last == node_idx + node_descendants(*node),
    decreases *node,
{
    match node {
        Node::Text(_) => node_idx,
        Node::Element(element) => {
            proof {
                assert forall|i: int| 0 <= i < element.children@.len() implies decreases_to!(*node => element.children@[i]) by {
                    lemma_child_decreases(*node, *element, i);
                }
            }
            advance_children(&element.children, node_idx, Ghost(*node))
        },
    }
}

/// The index of the last node among `children` and below them, where
/// their parent stands at `node_idx`.
fn advance_children(children: &Vec<Node>, node_idx: usize, Ghost(parent): Ghost<Node>) -> (last: usize)
    requires
        forall|i: int| 0 <= i < children@.len() ==> decreases_to!(parent => children@[i]),
        node_idx + children_nodes(children@, children@.len()) <= usize::MAX,
    ensures
        last == node_idx + children_nodes(children@, children@.len()),
    decreases parent, 0nat,
{
    let mut last: usize = node_idx;
    let mut i: usize = 0;
    while i < children.len()
        invariant
            i <= children.len(),
            forall|i: int| 0 <= i < children@.len() ==> decreases_to!(parent => children@[i]),
            node_idx + children_nodes(children@, children@.len()) <= usize::MAX,
            last == node_idx + children_nodes(children@, i as nat),
        decreases children.len() - i,
    {
        proof {
            lemma_children_nodes_monotonic(children@, (i + 1) as nat, children@.len());
        }
        last = advance_node(&children[i], last + 1);
        i = i + 1;
    }
    last
}

impl Render for Node {
    open spec fn rendered(&self, indent: nat) -> Seq<char> {
        node_markup(*self, indent)
    }

    open spec fn descendants(&self) -> nat {
        node_descendants(*self)
    }

    fn render_with_indent(
        &self,
        buffer: &mut String,
        indent: usize,
        node_idx: &mut Option<usize>,
    ) -> (r: Result<(), std::fmt::Error>) {
        assert(self.descendants() == node_descendants(*self));
        match self {
            Node::Element(element) => {
                assert(element.descendants() == element_descendants(*element));
                element.render_with_indent(buffer, indent, node_idx)
            },
            Node::Text(text) => {
                buffer.append(text.as_str());
                Ok(())
            },
        }
    }
}

impl Render for Element {
    open spec fn rendered(&self, indent: nat) -> Seq<char> {
        element_markup(*self, indent)
    }

    open spec fn descendants(&self) -> nat {
        element_descendants(*self)
    }

    fn render_with_indent(
        &self,
        buffer: &mut String,
        indent: usize,
        node_idx: &mut Option<usize>,
    ) -> (r: Result<(), std::fmt::Error>) {
        assert(self.descendants() == element_descendants(*self));
        let mut pad = String::new();
        push_indentation(&mut pad, indent);
        assert(pad@ =~= indentation(indent as nat));
        push_element(self, buffer, &pad, Ghost(indent as nat));
        assert(buffer@ == old(buffer)@ + element_markup(*self, indent as nat));
        assert(self.rendered(indent as nat) == element_markup(*self, indent as nat));
        match *node_idx {
            Some(at) => {
                proof {
                    lemma_element_children_decrease(*self);
                }
                let last = advance_children(
                    &self.children,
                    at,
                    Ghost(Node::Element(*self)),
                );
                *node_idx = Some(last);
            },
            None => {},
        }
        Ok(())
    }
}

/// The children of an element are smaller than the node that holds it.
proof fn lemma_element_children_decrease(element: Element)
    ensures
        forall|i: int|
            0 <= i < element.children@.len() ==> decreases_to!(Node::Element(element) => element.children@[i]),
{
    assert forall|i: int| 0 <= i < element.children@.len() implies decreases_to!(Node::Element(element) => element.children@[i]) by {
        lemma_child_decreases(Node::Element(element), element, i);
    }
}

impl Render for Attribute {
    open spec fn rendered(&self, indent: nat) -> Seq<char> {
        attribute_markup(self.name@, self.value@)
    }

    open spec fn descendants(&self) -> nat {
        0
    }

    fn render_with_indent(
        &self,
        buffer: &mut String,
        indent: usize,
        node_idx: &mut Option<usize>,
    ) -> (r: Result<(), std::fmt::Error>) {
        assert(self.descendants() == 0);
        buffer.append(self.name.as_str());
        buffer.append("=\"");
        push_values(&self.value, buffer);
        buffer.append("\"");
        assert(buffer@ =~= old(buffer)@ + attribute_markup(self.name@, self.value@));
        Ok(())
    }
}

impl Render for AttributeValue {
    open spec fn rendered(&self, indent: nat) -> Seq<char> {
        value_markup(*self)
    }

    open spec fn descendants(&self) -> nat {
        0
    }

    fn render_with_indent(
        &self,
        buffer: &mut String,
        indent: usize,
        node_idx: &mut Option<usize>,
    ) -> (r: Result<(), std::fmt::Error>) {
        assert(self.descendants() == 0);
        push_value(self, buffer);
        Ok(())
    }
}

/// Appends the values of an attribute as they stand between its quotes.
pub fn push_values(values: &Vec<AttributeValue>, buffer: &mut String)
    ensures
        final(buffer)@ == old(buffer)@ + values_markup(values@, values@.len()),
{
    let mut i: usize = 0;
    assert(buffer@ =~= old(buffer)@ + values_markup(values@, 0));
    while i < values.len()
        invariant
            i <= values.len(),
            buffer@ == old(buffer)@ + values_markup(values@, i as nat),
        decreases values.len() - i,
    {
        let value = &values[i];
        if i > 0 && !value.is_style() && value.get_callback().is_none() {
            buffer.append(" ");
        }
        push_value(value, buffer);
        i = i + 1;
        assert(buffer@ =~= old(buffer)@ + values_markup(values@, i as nat));
    }
}

fn push_value(value: &AttributeValue, buffer: &mut String)
    ensures
        final(buffer)@ == old(buffer)@ + value_markup(*value),
{
    match value {
        AttributeValue::Simple(simple) => {
            simple.push_text(buffer);
        },
        AttributeValue::Style(styles) => {
            let mut i: usize = 0;
            assert(buffer@ =~= old(buffer)@ + styles_markup(styles@, 0));
            while i < styles.len()
                invariant
                    i <= styles.len(),
                    buffer@ == old(buffer)@ + styles_markup(styles@, i as nat),
                decreases styles.len() - i,
            {
                styles[i].push_text(buffer);
                buffer.append(";");
                i = i + 1;
                assert(buffer@ =~= old(buffer)@ + styles_markup(styles@, i as nat));
            }
        },
        _ => {
            assert(buffer@ =~= old(buffer)@ + value_markup(*value));
        },
    }
}

/// The markup of a prefix depends on that prefix alone.
proof fn lemma_values_markup_prefix(a: Seq<AttributeValue>, b: Seq<AttributeValue>, n: nat)
    requires
        n <= a.len(),
        n <= b.len(),
        forall|i: int| 0 <= i < n ==> a[i] == b[i],
    ensures
        values_markup(a, n) == values_markup(b, n),
    decreases n,
{
    if n > 0 {
        lemma_values_markup_prefix(a, b, (n - 1) as nat);
    }
}

/// Appends the merged attribute of one group: the name of the group, and
/// the values of all its attributes between quotes.
fn push_group(attrs: &Vec<Attribute>, group: &Vec<usize>, buffer: &mut String)
    requires
        group@.len() > 0,
        forall|j: int| 0 <= j < group@.len() ==> (#[trigger] group@[j]) < attrs@.len(),
    ensures
        final(buffer)@ == old(buffer)@ + group_markup(attrs@, group@),
{
    buffer.append(attrs[group[0]].name.as_str());
    buffer.append("=\"");
    let ghost base = buffer@;
    let mut first = true;
    let mut j: usize = 0;
    assert(buffer@ =~= base + values_markup(merged_values(attrs@, group@, 0), 0));
    while j < group.len()
        invariant
            j <= group.len(),
            forall|j: int| 0 <= j < group@.len() ==> (#[trigger] group@[j]) < attrs@.len(),
            first == (merged_values(attrs@, group@, j as nat).len() == 0),
            buffer@ == base + values_markup(
                merged_values(attrs@, group@, j as nat),
                merged_values(attrs@, group@, j as nat).len(),
            ),
        decreases group.len() - j,
    {
        let values = &attrs[group[j]].value;
        let ghost before = merged_values(attrs@, group@, j as nat);
        let ghost whole = merged_values(attrs@, group@, (j + 1) as nat);
        assert(whole == before + values@);
        let mut i: usize = 0;
        proof {
            lemma_values_markup_prefix(before, whole, before.len());
        }
        while i < values.len()
            invariant
                i <= values.len(),
                whole == before + values@,
                first == (before.len() + i == 0),
                buffer@ == base + values_markup(whole, (before.len() + i) as nat),
            decreases values.len() - i,
        {
            let value = &values[i];
            assert(whole[before.len() + i] == values@[i as int]);
            if !first && !value.is_style() && value.get_callback().is_none() {
                buffer.append(" ");
            }
            push_value(value, buffer);
            first = false;
            i = i + 1;
            assert(buffer@ =~= base + values_markup(whole, (before.len() + i) as nat));
        }
        j = j + 1;
    }
    buffer.append("\"");
    assert(buffer@ =~= old(buffer)@ + group_markup(attrs@, group@));
}

/// Appends the opening tag of `element`.
fn push_opening(element: &Element, buffer: &mut String)
    ensures
        final(buffer)@ == old(buffer)@ + opening_markup(*element),
{
    buffer.append("<");
    buffer.append(element.tag.as_str());
    let ghost base = buffer@;
    let groups = merge_positions(&element.attrs);
    let ghost spec_groups = groups_of(element.attrs@);
    proof {
        assert(names_of(element.attrs@).len() == element.attrs.len());
        lemma_grouped_valid(names_of(element.attrs@), element.attrs@.len());
        assert(groups.deep_view().len() == groups@.len());
    }
    let mut k: usize = 0;
    assert(buffer@ =~= base + groups_markup(element.attrs@, spec_groups, 0));
    while k < groups.len()
        invariant
            k <= groups.len(),
            spec_groups == groups_of(element.attrs@),
            groups.deep_view() == spec_groups,
            forall|k: int| 0 <= k < spec_groups.len() ==> (#[trigger] spec_groups[k]).len() > 0,
            forall|k: int, j: int|
                0 <= k < spec_groups.len() && 0 <= j < spec_groups[k].len() ==> (
                #[trigger] spec_groups[k][j]) < element.attrs@.len(),
            buffer@ == base + groups_markup(element.attrs@, spec_groups, k as nat),
        decreases groups.len() - k,
    {
        let group = &groups[k];
        proof {
            assert(groups.deep_view().len() == groups@.len());
            assert(groups.deep_view()[k as int] == groups@[k as int].deep_view());
            assert(group.deep_view() =~= group@);
            assert(group@ == spec_groups[k as int]);
        }
        buffer.append(" ");
        push_group(&element.attrs, group, buffer);
        k = k + 1;
        assert(buffer@ =~= base + groups_markup(element.attrs@, spec_groups, k as nat));
    }
    proof {
        assert(groups.deep_view().len() == groups@.len());
    }
    buffer.append(">");
    assert(buffer@ =~= old(buffer)@ + opening_markup(*element));
}

/// Appends the markup of `node`; `pad` is the indentation of its depth.
fn push_node(node: &Node, buffer: &mut String, pad: &String, Ghost(indent): Ghost<nat>)
    requires
        pad@ == indentation(indent),
    ensures
        final(buffer)@ == old(buffer)@ + node_markup(*node, indent),
    decreases *node,
{
    match node {
        Node::Text(text) => {
            buffer.append(text.as_str());
        },
        Node::Element(element) => {
            push_element(element, buffer, pad, Ghost(indent));
        },
    }
}

/// Appends the markup of `element`; `pad` is the indentation of its depth.
fn push_element(element: &Element, buffer: &mut String, pad: &String, Ghost(indent): Ghost<nat>)
    requires
        pad@ == indentation(indent),
    ensures
        final(buffer)@ == old(buffer)@ + element_markup(*element, indent),
    decreases *element,
{
    push_opening(element, buffer);
    let children = &element.children;
    if children.len() == 1 && children[0].is_text() {
        match &children[0] {
            Node::Text(text) => {
                buffer.append(text.as_str());
            },
            Node::Element(_) => {},
        }
    } else if children.len() > 0 {
        let mut deeper = pad.clone();
        deeper.append("    ");
        proof {
            lemma_indentation_step(indent);
        }
        let ghost base = buffer@;
        let mut i: usize = 0;
        assert(buffer@ =~= base + children_markup(children@, 0, indent + 1));
        while i < children.len()
            invariant
                i <= children.len(),
                children == &element.children,
                deeper@ == indentation(indent + 1),
                buffer@ == base + children_markup(children@, i as nat, indent + 1),
            decreases children.len() - i,
        {
            buffer.append("\n");
            buffer.append(deeper.as_str());
            proof {
                lemma_child_decreases(Node::Element(*element), *element, i as int);
            }
            push_node(&children[i], buffer, &deeper, Ghost(indent + 1));
            i = i + 1;
            assert(buffer@ =~= base + children_markup(children@, i as nat, indent + 1));
        }
        buffer.append("\n");
        buffer.append(pad.as_str());
    }
    buffer.append("</");
    buffer.append(element.tag.as_str());
    buffer.append(">");
    assert(buffer@ =~= old(buffer)@ + element_markup(*element, indent));
}

/// Rendering is idempotent: two renderings of one tree, each into a buffer
/// of its own that held the same text, leave the same text.
pub proof fn lemma_render_idempotent(node: Node, before: Seq<char>, first: Seq<char>, second: Seq<char>)
    requires
        first == before + node.rendered(0),
        second == before + node.rendered(0),
    ensures
        first == second,
{
}

/// An element whose only child is a text node renders as its opening tag,
/// the text, and its closing tag: the text stays on the line of the opening
/// tag, and no indentation is added at any depth.
pub proof fn lemma_lone_text_child_inline(element: Element, indent: nat)
    requires
        element.children@.len() == 1,
        element.children@[0] is Text,
    ensures
        element.rendered(indent) == opening_markup(element) + element.children@[0]->Text_0@
            + closing_markup(element),
        element.rendered(indent) == element.rendered(0),
{
}

/// Two attributes of one name merge into one, whatever other attributes
/// stand before, between or after them: where the name stands at the
/// positions `p` and `q` of `attrs` and nowhere else, one merged attribute
/// carries it, and that attribute holds the values of `attrs[p]` followed by
/// those of `attrs[q]`.
pub proof fn lemma_same_name_merges(attrs: Seq<Attribute>, p: int, q: int)
    requires
        0 <= p < q < attrs.len() <= usize::MAX,
        forall|i: int|
            0 <= i < attrs.len() ==> (#[trigger] attrs[i].name@ == attrs[p].name@ <==> i == p || i
                == q),
    ensures
        ({
            let k = group_of(names_of(attrs), groups_of(attrs), attrs[p].name@);
            &&& 0 <= k < groups_of(attrs).len()
            &&& group_markup(attrs, groups_of(attrs)[k]) == attribute_markup(
                attrs[p].name@,
                attrs[p].value@ + attrs[q].value@,
            )
            &&& forall|l: int|
                0 <= l < groups_of(attrs).len() && l != k ==> attrs[(
                #[trigger] groups_of(attrs)[l])[0] as int].name@ != attrs[p].name@
        }),
{
    let names = names_of(attrs);
    let name = attrs[p].name@;
    let groups = groups_of(attrs);
    assert forall|i: int| 0 <= i < names.len() implies (#[trigger] names[i] == name <==> i == p || i
        == q) by {
        assert(names[i] == attrs[i].name@);
    }
    lemma_groups_are_positions(names, attrs.len());
    lemma_grouped_valid(names, attrs.len());
    lemma_group_of_bounds(names, groups, name);
    lemma_positions_pair(names, name, p, q, attrs.len());
    assert(names[p] == name);
    let k = group_of(names, groups, name);
    assert(k < groups.len());
    let group = groups[k];
    assert(group == seq![p as usize, q as usize]);
    assert(merged_values(attrs, group, 0) =~= Seq::empty());
    assert(merged_values(attrs, group, 1) =~= attrs[p].value@);
    assert(merged_values(attrs, group, 2) =~= attrs[p].value@ + attrs[q].value@);
    assert forall|l: int| 0 <= l < groups.len() && l != k implies attrs[(#[trigger] groups[l])[0] as int].name@
        != name by {
        assert(groups[l].len() > 0);
        assert(names[groups[l][0] as int] == attrs[groups[l][0] as int].name@);
        if l < k {
            assert(names[groups[l][0] as int] != names[groups[k][0] as int]);
        } else {
            assert(names[groups[k][0] as int] != names[groups[l][0] as int]);
        }
    }
}

/// Two plain values of one merged attribute render with one space between
/// them.
pub proof fn lemma_two_values_markup(a: AttributeValue, b: AttributeValue)
    requires
        a is Simple,
        b is Simple,
    ensures
        values_markup(seq![a, b], 2) == a->Simple_0.text() + " "@ + b->Simple_0.text(),
{
    let values = seq![a, b];
    assert(values_markup(values, 0) =~= Seq::empty());
    assert(values_markup(values, 1) =~= a->Simple_0.text());
    assert(values_markup(values, 2) =~= a->Simple_0.text() + " "@ + b->Simple_0.text());
}

} // verus!
