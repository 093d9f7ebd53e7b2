use virtual_dom::dom::{create_unique_identifier, LiveNode};
use virtual_dom::node::{is_void, Events, VirtualNode, VirtualNodeElement, VirtualNodeText};
use virtual_dom::template::{parse_close_tag, CloseTagVerdict};

fn elem(tag: &str, props: Vec<(&str, &str)>, children: Vec<VirtualNode>) -> VirtualNodeElement {
    VirtualNodeElement {
        tag: tag.to_string(),
        props: props
            .into_iter()
            .map(|(k, v)| (k.to_string(), v.to_string()))
            .collect(),
        events: Events(Vec::new()),
        children,
    }
}

fn text(s: &str) -> VirtualNode {
    VirtualNode::Text(VirtualNodeText { text: s.to_string() })
}

#[test]
fn self_closing_tag_to_string() {
    let node = VirtualNode::new("br");

    // No </br> since self closing tag
    assert_eq!(&node.to_string(), "<br>");
}

#[test]
fn void_img_serializes_without_closing_marker() {
    let node = VirtualNode::new("img");
    assert_eq!(&node.to_string(), "<img>");
}

#[test]
fn non_void_empty_element_has_closing_marker() {
    let node = VirtualNode::new("div");
    assert_eq!(&node.to_string(), "<div></div>");
}

#[test]
fn nested_tree_serializes_depth_first() {
    let inner = elem("span", vec![], vec![text("Hello world")]);
    let root = elem(
        "div",
        vec![("id", "some-id")],
        vec![VirtualNode::Element(inner)],
    );
    assert_eq!(
        root.to_string(),
        r#"<div id="some-id"><span>Hello world</span></div>"#
    );
}

#[test]
fn text_node_serializes_unescaped() {
    let node = VirtualNode::text("a < b & c");
    assert_eq!(&node.to_string(), "a < b & c");
}

#[test]
fn is_text_node_distinguishes_kinds() {
    assert!(VirtualNode::text("x").is_text_node());
    assert!(!VirtualNode::new("div").is_text_node());
}

#[test]
fn void_tag_membership() {
    for tag in [
        "area", "base", "br", "col", "hr", "img", "input", "link", "meta", "param", "command",
        "keygen", "source",
    ] {
        assert!(is_void(tag), "{tag} should be a void tag");
    }
    assert!(!is_void("div"));
    assert!(!is_void("span"));
    let e = elem("input", vec![], vec![]);
    assert!(e.is_self_closing());
    let e = elem("p", vec![], vec![]);
    assert!(!e.is_self_closing());
}

#[test]
fn event_maps_always_compare_equal() {
    let a = Events(vec![("onclick".to_string(), 1)]);
    let b = Events(vec![("oninput".to_string(), 2)]);
    assert!(a == b);
}

#[test]
fn unique_identifiers_are_monotonic() {
    let mut counter: u32 = 0;
    assert_eq!(create_unique_identifier(&mut counter), 1);
    assert_eq!(create_unique_identifier(&mut counter), 2);
    assert_eq!(counter, 2);
}

#[test]
fn materialized_element_with_events_is_tagged_and_registered() {
    let mut counter: u32 = 0;
    let e = VirtualNodeElement {
        tag: "button".to_string(),
        props: vec![],
        events: Events(vec![("onclick".to_string(), 7), ("oninput".to_string(), 9)]),
        children: vec![],
    };
    let created = e.create_element_node(&mut counter);
    assert_eq!(created.element.vdom_id, Some(1));
    assert_eq!(created.element.handlers.len(), 2);
    assert_eq!(created.closures, vec![(1, vec![7, 9])]);
    assert_eq!(counter, 1);
}

#[test]
fn materialized_element_without_events_is_untagged() {
    let mut counter: u32 = 5;
    let e = elem("div", vec![("id", "x")], vec![text("hi")]);
    let created = e.create_element_node(&mut counter);
    assert_eq!(created.element.vdom_id, None);
    assert!(created.closures.is_empty());
    assert_eq!(counter, 5);
}

#[test]
fn adjacent_text_children_get_one_marker() {
    let mut counter: u32 = 0;
    let e = elem("div", vec![], vec![text("a"), text("b")]);
    let created = e.create_element_node(&mut counter);
    let kids = &created.element.children;
    assert_eq!(kids.len(), 3);
    assert_eq!(kids[0], LiveNode::Text("a".to_string()));
    assert_eq!(kids[1], LiveNode::Marker);
    assert_eq!(kids[2], LiveNode::Text("b".to_string()));
}

#[test]
fn element_between_texts_needs_no_marker() {
    let mut counter: u32 = 0;
    let e = elem(
        "div",
        vec![],
        vec![text("a"), VirtualNode::Element(elem("b", vec![], vec![])), text("c")],
    );
    let created = e.create_element_node(&mut counter);
    let markers = created
        .element
        .children
        .iter()
        .filter(|c| matches!(c, LiveNode::Marker))
        .count();
    assert_eq!(markers, 0);
    assert_eq!(created.element.children.len(), 3);
}

#[test]
fn close_tag_verdicts() {
    let mut stack = vec!["div".to_string(), "span".to_string()];
    assert_eq!(parse_close_tag(&mut stack, "br"), CloseTagVerdict::SelfClosing);
    assert_eq!(stack.len(), 2);
    assert_eq!(parse_close_tag(&mut stack, "span"), CloseTagVerdict::Matched);
    assert_eq!(stack, vec!["div".to_string()]);
    assert_eq!(parse_close_tag(&mut stack, "strong"), CloseTagVerdict::Mismatched);
    assert!(stack.is_empty());
}
