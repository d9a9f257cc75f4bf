//! The declarative tree: elements with attributes and ordered children, and
//! text leaves.
use vstd::prelude::*;
use vstd::string::StringExecFns;
use crate::text::{push_signed_decimal, signed_decimal};

verus! {

/// A scalar that an attribute can hold.
#[derive(Debug, PartialEq)]
pub enum Value {
    Bool(bool),
    Str(String),
    Int(i64),
}

impl Value {
    /// The text that stands for the scalar in markup and in host attributes.
    pub open spec fn text(&self) -> Seq<char> {
        match self {
            Value::Bool(b) => if *b {
                "true"@
            } else {
                "false"@
            },
            Value::Str(s) => s@,
            Value::Int(i) => signed_decimal(*i as int),
        }
    }

    /// Appends the scalar's text to `buffer`.
    pub fn push_text(&self, buffer: &mut String)
        ensures
            final(buffer)@ == old(buffer)@ + self.text(),
    {
        match self {
            Value::Bool(b) => {
                if *b {
                    buffer.append("true");
                } else {
                    buffer.append("false");
                }
            },
            Value::Str(s) => {
                buffer.append(s.as_str());
            },
            Value::Int(i) => {
                push_signed_decimal(buffer, *i);
            },
        }
    }

    /// The scalar's text as a string.
    pub fn to_string(&self) -> (s: String)
        ensures
            s@ == self.text(),
    {
        let mut s = String::new();
        self.push_text(&mut s);
        assert(s@ =~= self.text());
        s
    }

    /// The boolean that the scalar holds, if it holds one.
    pub fn as_bool(&self) -> (b: Option<bool>)
        ensures
            b == match self {
                Value::Bool(v) => Some(*v),
                _ => None::<bool>,
            },
    {
        match self {
            Value::Bool(v) => Some(*v),
            _ => None,
        }
    }
}

/// One declaration of a style attribute, such as `color:red`.
#[derive(Debug, PartialEq)]
pub struct Style {
    pub name: String,
    pub value: Value,
}

impl Style {
    /// The declaration as text: the property, a colon, the value.
    pub open spec fn text(&self) -> Seq<char> {
        self.name@ + ":"@ + self.value.text()
    }

    /// Appends the declaration to `buffer`.
    pub fn push_text(&self, buffer: &mut String)
        ensures
            final(buffer)@ == old(buffer)@ + self.text(),
    {
        buffer.append(self.name.as_str());
        buffer.append(":");
        self.value.push_text(buffer);
        assert(buffer@ =~= old(buffer)@ + self.text());
    }
}

/// An opaque handle to an event handler of the application.
#[derive(Debug, Clone, Copy, PartialEq, Eq, Structural)]
pub struct Callback {
    pub id: u64,
}

/// What an attribute holds.
#[derive(Debug, PartialEq)]
pub enum AttributeValue {
    /// A plain scalar.
    Simple(Value),
    /// The declarations of a style attribute.
    Style(Vec<Style>),
    /// A handler for the event that the attribute names.
    EventCallback(Callback),
    /// Raw markup to inject into the element.
    FunctionCall(String),
}

impl AttributeValue {
    /// Whether this is a list of style declarations.
    pub fn is_style(&self) -> (b: bool)
        ensures
            b == (self is Style),
    {
        match self {
            AttributeValue::Style(_) => true,
            _ => false,
        }
    }

    /// The scalar, where this is a plain value.
    pub fn get_simple(&self) -> (v: Option<&Value>)
        ensures
            v == match self {
                AttributeValue::Simple(s) => Some(s),
                _ => None::<&Value>,
            },
    {
        match self {
            AttributeValue::Simple(s) => Some(s),
            _ => None,
        }
    }

    /// The markup, where this is raw markup.
    pub fn get_function_call_value(&self) -> (v: Option<&String>)
        ensures
            v == match self {
                AttributeValue::FunctionCall(s) => Some(s),
                _ => None::<&String>,
            },
    {
        match self {
            AttributeValue::FunctionCall(s) => Some(s),
            _ => None,
        }
    }

    /// The handler, where this is an event callback.
    pub fn get_callback(&self) -> (v: Option<Callback>)
        ensures
            v == match self {
                AttributeValue::EventCallback(c) => Some(*c),
                _ => None::<Callback>,
            },
    {
        match self {
            AttributeValue::EventCallback(c) => Some(*c),
            _ => None,
        }
    }
}

/// A named attribute. One that was written down holds one value; attributes
/// of one name are merged into one with all their values when an element is
/// rendered.
#[derive(Debug, PartialEq)]
pub struct Attribute {
    pub name: String,
    pub value: Vec<AttributeValue>,
}

impl Attribute {
    /// The name of the attribute.
    pub fn name(&self) -> (n: &String)
        ensures
            n == &self.name,
    {
        &self.name
    }

    /// The values of the attribute, in order.
    pub fn value(&self) -> (v: &Vec<AttributeValue>)
        ensures
            v == &self.value,
    {
        &self.value
    }
}

/// An element: a tag, attributes in the order written, children in order.
#[derive(Debug, PartialEq)]
pub struct Element {
    pub tag: String,
    pub attrs: Vec<Attribute>,
    pub children: Vec<Node>,
}

impl Element {
    /// The tag of the element.
    pub fn tag(&self) -> (t: &String)
        ensures
            t == &self.tag,
    {
        &self.tag
    }

    /// The attributes of the element, in the order written.
    pub fn get_attributes(&self) -> (a: &Vec<Attribute>)
        ensures
            a == &self.attrs,
    {
        &self.attrs
    }

    /// The children of the element, in order.
    pub fn get_children(&self) -> (c: &Vec<Node>)
        ensures
            c == &self.children,
    {
        &self.children
    }
}

/// A node of the declarative tree.
#[derive(Debug, PartialEq)]
pub enum Node {
    Element(Element),
    Text(String),
}

impl Node {
    /// Whether the node is a text leaf.
    pub fn is_text(&self) -> (b: bool)
        ensures
            b == (self is Text),
    {
        match self {
            Node::Text(_) => true,
            Node::Element(_) => false,
        }
    }
}

/// A child of an element is smaller than the node that holds the element.
pub proof fn lemma_child_decreases(node: Node, element: Element, i: int)
    requires
        node == Node::Element(element),
        0 <= i < element.children@.len(),
    ensures
        decreases_to!(node => element.children@[i]),
        decreases_to!(element => element.children@[i]),
{
    assert(node->Element_0 == element);
    assert(decreases_to!(node => node->Element_0));
    assert(decreases_to!(element => element.children));
    assert(decreases_to!(element.children => element.children@));
    assert(decreases_to!(element.children@ => element.children@[i]));
}

} // verus!
