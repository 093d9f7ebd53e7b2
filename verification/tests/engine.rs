use virtual_dom::diff::{diff, node_count, Patch};
use virtual_dom::dom::{patch, LiveNode};
use virtual_dom::node::{clone_node, Events, VirtualNode, VirtualNodeElement, VirtualNodeText};

fn elem(tag: &str, props: Vec<(&str, &str)>, children: Vec<VirtualNode>) -> VirtualNode {
    VirtualNode::Element(VirtualNodeElement {
        tag: tag.to_string(),
        props: props
            .into_iter()
            .map(|(k, v)| (k.to_string(), v.to_string()))
            .collect(),
        events: Events(Vec::new()),
        children,
    })
}

fn text(s: &str) -> VirtualNode {
    VirtualNode::Text(VirtualNodeText { text: s.to_string() })
}

/// Materialize a snapshot, apply the patches from diffing it against a new
/// snapshot, and hand back the patched live root.
fn round_trip(old_node: &VirtualNode, new_node: &VirtualNode) -> LiveNode {
    let mut counter: u32 = 0;
    let created = old_node.create_dom_node(&mut counter);
    let patches = diff(old_node, new_node);
    let (live, _registry) = patch(created.node, &patches, &mut counter);
    live
}

/// The live tree the new snapshot would materialize into directly, with a
/// separate identifier counter.
fn materialized(n: &VirtualNode) -> LiveNode {
    let mut counter: u32 = 0;
    n.create_dom_node(&mut counter).node
}

#[test]
fn diff_of_identical_trees_is_empty() {
    let t = elem(
        "div",
        vec![("id", "root"), ("class", "wide")],
        vec![text("hello"), elem("span", vec![("a", "1")], vec![text("x")])],
    );
    assert_eq!(diff(&t, &t), vec![]);
}

#[test]
fn handler_only_change_yields_no_patches() {
    let old_node = VirtualNode::Element(VirtualNodeElement {
        tag: "button".to_string(),
        props: vec![],
        events: Events(vec![("onclick".to_string(), 1)]),
        children: vec![],
    });
    let new_node = VirtualNode::Element(VirtualNodeElement {
        tag: "button".to_string(),
        props: vec![],
        events: Events(vec![("onclick".to_string(), 2)]),
        children: vec![],
    });
    assert_eq!(diff(&old_node, &new_node), vec![]);
}

#[test]
fn attribute_delta_adds_and_removes_once_each() {
    let old_node = elem("div", vec![("a", "1"), ("b", "2")], vec![]);
    let new_node = elem("div", vec![("a", "1"), ("c", "3")], vec![]);
    let patches = diff(&old_node, &new_node);
    assert_eq!(
        patches,
        vec![
            Patch::AddAttributes(0, vec![("c".to_string(), "3".to_string())]),
            Patch::RemoveAttributes(0, vec!["b".to_string()]),
        ]
    );
}

#[test]
fn changed_attribute_value_is_an_addition() {
    let old_node = elem("div", vec![("a", "1")], vec![]);
    let new_node = elem("div", vec![("a", "2")], vec![]);
    let patches = diff(&old_node, &new_node);
    assert_eq!(
        patches,
        vec![Patch::AddAttributes(0, vec![("a".to_string(), "2".to_string())])]
    );
}

#[test]
fn child_growth_appends_extras_wholesale() {
    let c = |s: &str| elem("span", vec![], vec![text(s)]);
    let old_node = elem("div", vec![], vec![c("1"), c("2")]);
    let new_node = elem("div", vec![], vec![c("1"), c("2"), c("3"), c("4"), c("5")]);
    let patches = diff(&old_node, &new_node);
    assert_eq!(
        patches,
        vec![Patch::AppendChildren(0, vec![c("3"), c("4"), c("5")])]
    );
}

#[test]
fn child_shrink_truncates_to_keep_count() {
    let c = |s: &str| elem("span", vec![], vec![text(s)]);
    let old_node = elem("div", vec![], vec![c("1"), c("2"), c("3"), c("4"), c("5")]);
    let new_node = elem("div", vec![], vec![c("1"), c("2")]);
    let patches = diff(&old_node, &new_node);
    assert_eq!(patches, vec![Patch::TruncateChildren(0, 2)]);
}

#[test]
fn truncation_does_not_count_markers() {
    // Five text children materialize with markers between them; truncating
    // to two must count only the text nodes, never the markers.
    let old_node = elem("div", vec![], vec![text("a"), text("b"), text("c"), text("d"), text("e")]);
    let new_node = elem("div", vec![], vec![text("a"), text("b")]);
    let live = round_trip(&old_node, &new_node);
    let LiveNode::Element(e) = live else {
        panic!("expected a live element")
    };
    let texts: Vec<&LiveNode> = e
        .children
        .iter()
        .filter(|c| matches!(c, LiveNode::Text(_)))
        .collect();
    assert_eq!(texts.len(), 2);
    assert_eq!(*texts[0], LiveNode::Text("a".to_string()));
    assert_eq!(*texts[1], LiveNode::Text("b".to_string()));
}

#[test]
fn kind_change_is_a_single_replace() {
    let old_node = text("hi");
    let new_node = elem("span", vec![("id", "x")], vec![text("inner")]);
    let patches = diff(&old_node, &new_node);
    assert_eq!(patches, vec![Patch::Replace(0, clone_node(&new_node))]);
}

#[test]
fn tag_change_is_a_single_replace_without_descent() {
    let old_node = elem("div", vec![("a", "1")], vec![text("x")]);
    let new_node = elem("nav", vec![("a", "2")], vec![text("y"), text("z")]);
    let patches = diff(&old_node, &new_node);
    assert_eq!(patches.len(), 1);
    assert!(matches!(patches[0], Patch::Replace(0, _)));
}

#[test]
fn text_payload_change_emits_change_text() {
    let old_node = elem("div", vec![], vec![text("before")]);
    let new_node = elem("div", vec![], vec![text("after")]);
    let patches = diff(&old_node, &new_node);
    assert_eq!(
        patches,
        vec![Patch::ChangeText(1, VirtualNodeText { text: "after".to_string() })]
    );
}

#[test]
fn child_indices_advance_by_subtree_size() {
    // The first child's subtree occupies two slots, so the second child's
    // text sits at structural index 3.
    let old_node = elem(
        "div",
        vec![],
        vec![elem("span", vec![], vec![text("a")]), elem("span", vec![], vec![text("b")])],
    );
    let new_node = elem(
        "div",
        vec![],
        vec![elem("span", vec![], vec![text("a")]), elem("span", vec![], vec![text("B")])],
    );
    assert_eq!(node_count(&old_node), 5);
    let patches = diff(&old_node, &new_node);
    assert_eq!(
        patches,
        vec![Patch::ChangeText(4, VirtualNodeText { text: "B".to_string() })]
    );
}

#[test]
fn applying_diff_converges_on_nested_changes() {
    let old_node = elem(
        "div",
        vec![("id", "root"), ("dropped", "yes")],
        vec![
            elem("span", vec![("a", "1")], vec![text("x")]),
            text("middle"),
            elem("p", vec![], vec![]),
        ],
    );
    let new_node = elem(
        "div",
        vec![("id", "root"), ("fresh", "1")],
        vec![
            elem("span", vec![("a", "2")], vec![text("y")]),
            text("changed"),
            elem("ul", vec![], vec![text("li")]),
            text("extra"),
        ],
    );
    assert_eq!(round_trip(&old_node, &new_node), materialized(&new_node));
}

#[test]
fn applying_diff_converges_on_root_replace() {
    let old_node = text("hi");
    let new_node = elem("span", vec![], vec![text("a"), text("b")]);
    assert_eq!(round_trip(&old_node, &new_node), materialized(&new_node));
}

#[test]
fn applying_diff_converges_on_shrink_with_markers() {
    let old_node = elem("div", vec![], vec![text("a"), text("b"), elem("i", vec![], vec![])]);
    let new_node = elem("div", vec![], vec![text("a")]);
    let live = round_trip(&old_node, &new_node);
    let LiveNode::Element(e) = live else {
        panic!("expected a live element")
    };
    let countable = e
        .children
        .iter()
        .filter(|c| !matches!(c, LiveNode::Marker))
        .count();
    assert_eq!(countable, 1);
    assert!(e.children.contains(&LiveNode::Text("a".to_string())));
    assert!(!e.children.contains(&LiveNode::Text("b".to_string())));
}

#[test]
fn applying_empty_patch_list_changes_nothing() {
    let t = elem("div", vec![("a", "1")], vec![text("x")]);
    let mut counter: u32 = 0;
    let created = t.create_dom_node(&mut counter);
    let before = materialized(&t);
    let (live, registry) = patch(created.node, &vec![], &mut counter);
    assert_eq!(live, before);
    assert!(registry.is_empty());
}

#[test]
fn patching_in_handlers_registers_them() {
    let old_node = elem("div", vec![], vec![]);
    let with_handler = VirtualNode::Element(VirtualNodeElement {
        tag: "button".to_string(),
        props: vec![],
        events: Events(vec![("onclick".to_string(), 42)]),
        children: vec![],
    });
    let new_node = elem("div", vec![], vec![with_handler]);
    let mut counter: u32 = 0;
    let created = old_node.create_dom_node(&mut counter);
    let patches = diff(&old_node, &new_node);
    let (live, registry) = patch(created.node, &patches, &mut counter);
    assert_eq!(registry, vec![(1, vec![42])]);
    let LiveNode::Element(e) = live else {
        panic!("expected a live element")
    };
    let LiveNode::Element(button) = &e.children[0] else {
        panic!("expected a live child element")
    };
    assert_eq!(button.vdom_id, Some(1));
}
