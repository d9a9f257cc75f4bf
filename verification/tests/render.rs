use sauron::html::{
    attr, class, class_number, classes_flag, div, element, key, li, main, on, style, text, ul,
};
use sauron::render::Render;
use sauron::vdom::{Attribute, AttributeValue, Callback, Node, Style, Value};

fn rendered(node: &Node) -> String {
    let mut buffer = String::new();
    node.render(&mut buffer).expect("must render");
    buffer
}

#[test]
fn test_render_classes() {
    let view: Node = div(vec![class("frame"), class("component")], vec![]);
    let expected = r#"<div class="frame component"></div>"#;
    let mut buffer = String::new();
    view.render(&mut buffer).expect("must render");
    assert_eq!(expected, buffer);
}

#[test]
fn test_render_class_flag() {
    let view: Node = div(
        vec![
            class("frame"),
            classes_flag([("component", true), ("layer", false)]),
        ],
        vec![],
    );
    let expected = r#"<div class="frame component"></div>"#;
    let mut buffer = String::new();
    view.render(&mut buffer).expect("must render");
    assert_eq!(expected, buffer);
}

#[test]
fn render_twice_gives_the_same_text() {
    let view = main(
        vec![class("x")],
        vec![ul(vec![class("todo")], vec![li(vec![key(1)], vec![text("item1")])])],
    );
    assert_eq!(rendered(&view), rendered(&view));
}

#[test]
fn render_appends_to_what_the_buffer_holds() {
    let view = div(vec![], vec![]);
    let mut buffer = String::from("before");
    view.render(&mut buffer).expect("must render");
    assert_eq!("before<div></div>", buffer);
}

#[test]
fn classes_merge_whatever_stands_between_them() {
    let expected_class = r#"class="a b""#;
    let first = div(vec![class("a"), class("b"), attr("id", AttributeValue::Simple(Value::Str("i".to_string())))], vec![]);
    assert_eq!(r#"<div class="a b" id="i"></div>"#, rendered(&first));
    let between = div(vec![class("a"), attr("id", AttributeValue::Simple(Value::Str("i".to_string()))), class("b")], vec![]);
    assert_eq!(r#"<div class="a b" id="i"></div>"#, rendered(&between));
    let before = div(vec![attr("id", AttributeValue::Simple(Value::Str("i".to_string()))), class("a"), class("b")], vec![]);
    assert_eq!(r#"<div id="i" class="a b"></div>"#, rendered(&before));
    for view in [first, between, before] {
        assert!(rendered(&view).contains(expected_class));
    }
}

#[test]
fn lone_text_child_stays_on_the_line() {
    let view = div(vec![class("a")], vec![text("hello")]);
    assert_eq!(r#"<div class="a">hello</div>"#, rendered(&view));
    let mut deep = String::new();
    view.render_with_indent(&mut deep, 3, &mut None).expect("must render");
    assert_eq!(r#"<div class="a">hello</div>"#, deep);
}

#[test]
fn children_are_indented_by_four_spaces_a_level() {
    let view = main(
        vec![class("x")],
        vec![ul(
            vec![class("todo")],
            vec![
                li(vec![key(1)], vec![text("item1")]),
                li(vec![key(2)], vec![text("item2")]),
            ],
        )],
    );
    let expected = "<main class=\"x\">\n    <ul class=\"todo\">\n        <li key=\"1\">item1</li>\n        <li key=\"2\">item2</li>\n    </ul>\n</main>";
    assert_eq!(expected, rendered(&view));
}

#[test]
fn two_text_children_stand_on_lines_of_their_own() {
    let view = div(vec![], vec![text("a"), text("b")]);
    assert_eq!("<div>\n    a\n    b\n</div>", rendered(&view));
}

#[test]
fn lone_element_child_is_indented() {
    let view = div(vec![], vec![div(vec![], vec![])]);
    assert_eq!("<div>\n    <div></div>\n</div>", rendered(&view));
}

#[test]
fn render_with_indent_starts_deeper() {
    let view = div(vec![], vec![div(vec![], vec![]), text("t")]);
    let mut buffer = String::new();
    view.render_with_indent(&mut buffer, 1, &mut None).expect("must render");
    assert_eq!("<div>\n        <div></div>\n        t\n    </div>", buffer);
}

#[test]
fn text_node_renders_as_its_content() {
    assert_eq!("plain", rendered(&text("plain")));
}

#[test]
fn styles_end_in_semicolons_and_take_no_space() {
    let view = div(vec![style("color", "red"), style("margin", "0")], vec![]);
    assert_eq!(r#"<div style="color:red;margin:0;"></div>"#, rendered(&view));
}

#[test]
fn numbers_and_booleans_render_as_text() {
    let view = li(
        vec![
            class_number(-12),
            attr("hidden", AttributeValue::Simple(Value::Bool(true))),
            attr("wide", AttributeValue::Simple(Value::Bool(false))),
        ],
        vec![],
    );
    assert_eq!(r#"<li class="-12" hidden="true" wide="false"></li>"#, rendered(&view));
}

#[test]
fn callbacks_leave_no_text() {
    let view = element("button", vec![on("click", Callback { id: 7 })], vec![text("go")]);
    assert_eq!(r#"<button click="">go</button>"#, rendered(&view));
}

#[test]
fn attribute_renders_its_values_with_spaces() {
    let attribute = Attribute {
        name: "class".to_string(),
        value: vec![
            AttributeValue::Simple(Value::Str("a".to_string())),
            AttributeValue::EventCallback(Callback { id: 1 }),
            AttributeValue::Simple(Value::Int(5)),
            AttributeValue::Style(vec![Style { name: "k".to_string(), value: Value::Int(1) }]),
            AttributeValue::FunctionCall("raw".to_string()),
        ],
    };
    let mut buffer = String::new();
    attribute.render(&mut buffer).expect("must render");
    assert_eq!("class=\"a 5k:1; \"", buffer);
}

#[test]
fn attribute_value_renders_alone() {
    let mut buffer = String::new();
    AttributeValue::Simple(Value::Int(42)).render(&mut buffer).expect("must render");
    AttributeValue::EventCallback(Callback { id: 1 }).render(&mut buffer).expect("must render");
    AttributeValue::FunctionCall("x".to_string()).render(&mut buffer).expect("must render");
    assert_eq!("42", buffer);
}

#[test]
fn value_texts() {
    assert_eq!("true", Value::Bool(true).to_string());
    assert_eq!("false", Value::Bool(false).to_string());
    assert_eq!("word", Value::Str("word".to_string()).to_string());
    assert_eq!("0", Value::Int(0).to_string());
    assert_eq!("-9223372036854775808", Value::Int(i64::MIN).to_string());
    assert_eq!("9223372036854775807", Value::Int(i64::MAX).to_string());
    assert_eq!(Some(true), Value::Bool(true).as_bool());
    assert_eq!(None, Value::Int(1).as_bool());
}

#[test]
fn decimal_strings() {
    assert_eq!("0", sauron::text::decimal_string(0));
    assert_eq!("7", sauron::text::decimal_string(7));
    assert_eq!("10", sauron::text::decimal_string(10));
    assert_eq!("4294967295", sauron::text::decimal_string(u32::MAX as u64));
    assert_eq!("18446744073709551615", sauron::text::decimal_string(u64::MAX));
}

#[test]
fn classes_flag_keeps_the_flagged_names() {
    let attribute = classes_flag([("a", false), ("b", true), ("c", true)]);
    assert_eq!("class", attribute.name);
    assert_eq!(
        vec![
            AttributeValue::Simple(Value::Str("b".to_string())),
            AttributeValue::Simple(Value::Str("c".to_string())),
        ],
        attribute.value
    );
    let none = classes_flag([("a", false)]);
    assert!(none.value.is_empty());
    let view = div(vec![none], vec![]);
    assert_eq!(r#"<div class=""></div>"#, rendered(&view));
}

#[test]
fn the_counter_advances_by_the_nodes_below() {
    let view = main(
        vec![class("x")],
        vec![ul(
            vec![class("todo")],
            vec![
                li(vec![key(1)], vec![text("item1")]),
                li(vec![key(2)], vec![text("item2")]),
            ],
        )],
    );
    let mut counting = Some(10);
    let mut buffer = String::new();
    view.render_with_indent(&mut buffer, 0, &mut counting).expect("must render");
    assert_eq!(Some(15), counting);
    assert_eq!(rendered(&view), buffer);
    let mut silent = None;
    view.render_with_indent(&mut String::new(), 0, &mut silent).expect("must render");
    assert_eq!(None, silent);
    let mut at_text = Some(3);
    text("t").render_with_indent(&mut String::new(), 0, &mut at_text).expect("must render");
    assert_eq!(Some(3), at_text);
    let mut lone = Some(0);
    div(vec![], vec![text("t")]).render_with_indent(&mut String::new(), 0, &mut lone).expect("must render");
    assert_eq!(Some(1), lone);
    let mut at_attribute = Some(7);
    class("a").render_with_indent(&mut String::new(), 0, &mut at_attribute).expect("must render");
    assert_eq!(Some(7), at_attribute);
}

#[test]
fn attribute_values_are_told_apart() {
    let simple = AttributeValue::Simple(Value::Int(1));
    let styled = AttributeValue::Style(vec![]);
    let raw = AttributeValue::FunctionCall("<i>".to_string());
    let handler = AttributeValue::EventCallback(Callback { id: 2 });
    assert_eq!(Some(&Value::Int(1)), simple.get_simple());
    assert_eq!(None, styled.get_simple());
    assert!(styled.is_style());
    assert!(!simple.is_style());
    assert_eq!(Some(&"<i>".to_string()), raw.get_function_call_value());
    assert_eq!(None, simple.get_function_call_value());
    assert_eq!(Some(Callback { id: 2 }), handler.get_callback());
    assert_eq!(None, raw.get_callback());
    let attribute = class("a");
    assert_eq!("class", attribute.name());
    assert_eq!(1, attribute.value().len());
    match div(vec![class("a")], vec![text("t")]) {
        Node::Element(element) => {
            assert_eq!("div", element.tag());
            assert_eq!(1, element.get_attributes().len());
            assert_eq!(1, element.get_children().len());
            assert!(element.get_children()[0].is_text());
        }
        Node::Text(_) => panic!("an element was built"),
    }
}
