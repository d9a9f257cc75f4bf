//! Builders for declarative trees.
use vstd::prelude::*;
use vstd::string::StringExecFns;
use crate::vdom::{Attribute, AttributeValue, Callback, Element, Node, Style, Value};

verus! {

/// An element node.
pub fn element(tag: &str, attrs: Vec<Attribute>, children: Vec<Node>) -> (node: Node)
    ensures
        node matches Node::Element(e) && e.tag@ == tag@ && e.attrs == attrs && e.children
            == children,
{
    Node::Element(Element { tag: String::from_str(tag), attrs, children })
}

/// A text leaf.
pub fn text(content: &str) -> (node: Node)
    ensures
        node matches Node::Text(t) && t@ == content@,
{
    Node::Text(String::from_str(content))
}

/// A `div` element.
pub fn div(attrs: Vec<Attribute>, children: Vec<Node>) -> (node: Node)
    ensures
        node matches Node::Element(e) && e.tag@ == "div"@ && e.attrs == attrs && e.children
            == children,
{
    element("div", attrs, children)
}

/// A `main` element.
pub fn main(attrs: Vec<Attribute>, children: Vec<Node>) -> (node: Node)
    ensures
        node matches Node::Element(e) && e.tag@ == "main"@ && e.attrs == attrs && e.children
            == children,
{
    element("main", attrs, children)
}

/// A `ul` element.
pub fn ul(attrs: Vec<Attribute>, children: Vec<Node>) -> (node: Node)
    ensures
        node matches Node::Element(e) && e.tag@ == "ul"@ && e.attrs == attrs && e.children
            == children,
{
    element("ul", attrs, children)
}

/// A `li` element.
pub fn li(attrs: Vec<Attribute>, children: Vec<Node>) -> (node: Node)
    ensures
        node matches Node::Element(e) && e.tag@ == "li"@ && e.attrs == attrs && e.children
            == children,
{
    element("li", attrs, children)
}

/// An attribute with one value.
pub fn attr(name: &str, value: AttributeValue) -> (a: Attribute)
    ensures
        a.name@ == name@,
        a.value@ == seq![value],
{
    let mut values = Vec::new();
    values.push(value);
    Attribute { name: String::from_str(name), value: values }
}

/// A plain text value.
pub fn text_value(content: &str) -> (v: AttributeValue)
    ensures
        v matches AttributeValue::Simple(Value::Str(s)) && s@ == content@,
{
    AttributeValue::Simple(Value::Str(String::from_str(content)))
}

/// A `class` attribute that names one class.
pub fn class(name: &str) -> (a: Attribute)
    ensures
        a.name@ == "class"@,
        a.value@.len() == 1,
        a.value@[0] matches AttributeValue::Simple(Value::Str(s)) && s@ == name@,
{
    attr("class", text_value(name))
}

/// A `class` attribute whose class is a number.
pub fn class_number(number: i64) -> (a: Attribute)
    ensures
        a.name@ == "class"@,
        a.value@ == seq![AttributeValue::Simple(Value::Int(number))],
{
    attr("class", AttributeValue::Simple(Value::Int(number)))
}

/// A `key` attribute.
pub fn key(number: i64) -> (a: Attribute)
    ensures
        a.name@ == "key"@,
        a.value@ == seq![AttributeValue::Simple(Value::Int(number))],
{
    attr("key", AttributeValue::Simple(Value::Int(number)))
}

/// A `checked` attribute.
pub fn checked(is_checked: bool) -> (a: Attribute)
    ensures
        a.name@ == "checked"@,
        a.value@ == seq![AttributeValue::Simple(Value::Bool(is_checked))],
{
    attr("checked", AttributeValue::Simple(Value::Bool(is_checked)))
}

/// A `value` attribute.
pub fn value(content: &str) -> (a: Attribute)
    ensures
        a.name@ == "value"@,
        a.value@.len() == 1,
        a.value@[0] matches AttributeValue::Simple(Value::Str(s)) && s@ == content@,
{
    attr("value", text_value(content))
}

/// An `inner_html` attribute that injects raw markup.
pub fn inner_html(markup: &str) -> (a: Attribute)
    ensures
        a.name@ == "inner_html"@,
        a.value@.len() == 1,
        a.value@[0] matches AttributeValue::FunctionCall(s) && s@ == markup@,
{
    attr("inner_html", AttributeValue::FunctionCall(String::from_str(markup)))
}

/// An attribute that registers `callback` for the event it names.
pub fn on(event: &str, callback: Callback) -> (a: Attribute)
    ensures
        a.name@ == event@,
        a.value@ == seq![AttributeValue::EventCallback(callback)],
{
    attr(event, AttributeValue::EventCallback(callback))
}

/// A `style` attribute with one declaration.
pub fn style(property: &str, content: &str) -> (a: Attribute)
    ensures
        a.name@ == "style"@,
        a.value@.len() == 1,
        a.value@[0] matches AttributeValue::Style(styles) && styles@.len() == 1
            && styles@[0].name@ == property@ && (styles@[0].value matches Value::Str(s) && s@
            == content@),
{
    let mut styles = Vec::new();
    styles.push(Style { name: String::from_str(property), value: Value::Str(String::from_str(content)) });
    attr("style", AttributeValue::Style(styles))
}

/// The names among the first `n` pairs whose flag is set, in order.
pub open spec fn flagged(pairs: Seq<(&str, bool)>, n: nat) -> Seq<Seq<char>>
    decreases n,
{
    if n == 0 || n > pairs.len() {
        Seq::empty()
    } else if pairs[n - 1].1 {
        flagged(pairs, (n - 1) as nat).push(pairs[n - 1].0@)
    } else {
        flagged(pairs, (n - 1) as nat)
    }
}

/// A `class` attribute that names the classes whose flag is set.
pub fn classes_flag<const N: usize>(pairs: [(&str, bool); N]) -> (a: Attribute)
    ensures
        a.name@ == "class"@,
        a.value@.len() == flagged(pairs@, pairs@.len()).len(),
        forall|i: int|
            0 <= i < a.value@.len() ==> (#[trigger] a.value@[i] matches AttributeValue::Simple(
                Value::Str(s),
            ) && s@ == flagged(pairs@, pairs@.len())[i]),
{
    let mut values: Vec<AttributeValue> = Vec::new();
    let mut i: usize = 0;
    while i < N
        invariant
            i <= N,
            N == pairs@.len(),
            values@.len() == flagged(pairs@, i as nat).len(),
            forall|k: int|
                0 <= k < values@.len() ==> (#[trigger] values@[k] matches AttributeValue::Simple(
                    Value::Str(s),
                ) && s@ == flagged(pairs@, i as nat)[k]),
        decreases N - i,
    {
        if pairs[i].1 {
            values.push(text_value(pairs[i].0));
        }
        i = i + 1;
    }
    Attribute { name: String::from_str("class"), value: values }
}

} // verus!
