use ddd_model::cond::{NameContains, NameEquals, NoStop};
use ddd_model::item::{Item, SimpleItem};
use ddd_model::node::{wrap_as_rc_item, Node};
use ddd_model::trees::{create_tree, usize_to_string};

fn simple(name: &str, namespace: &str) -> SimpleItem {
    SimpleItem::new(String::from(name), String::from(namespace))
}

fn names_of(pairs: &[(String, String)]) -> Vec<String> {
    pairs.iter().map(|p| p.0.clone()).collect()
}

#[test]
fn node() {
    let root = create_tree(3, 3);
    let doc = root.serialize_to_yaml();
    assert!(!doc.is_empty());
    assert!(Node::from_yaml(doc.as_str()).is_some());
}

#[test]
fn add_child_wires_parent_and_child() {
    let mut root = Node::new(simple("A", "ns"));
    let idx = root.add_child(simple("B", "ns"));
    assert_eq!(idx, 0);
    assert_eq!(root.child_count(), 1);
    let child_path = vec![idx];
    let b = root.get_node(&child_path).expect("child handle must resolve");
    assert_eq!(b.item().name(), "B");
    let parent_path: Vec<usize> = Vec::new();
    let a = root.get_node(&parent_path).expect("parent handle must resolve");
    assert_eq!(a.item().name(), "A");
}

#[test]
fn add_child_at_extends_and_reports_stale() {
    let mut root = Node::new(simple("A", "ns"));
    let first = root.add_child_at(&Vec::new(), simple("B", "ns")).expect("root handle is live");
    let second = root.add_child_at(&vec![first], simple("C", "ns")).expect("child handle is live");
    assert_eq!(second, 0);
    let deep = root.get_node(&vec![first, second]).expect("grandchild must resolve");
    assert_eq!(deep.item().name(), "C");
    assert!(root.add_child_at(&vec![7], simple("D", "ns")).is_none());
    assert_eq!(root.child_count(), 1);
}

#[test]
fn wrap_establishes_empty_root() {
    let root = wrap_as_rc_item(simple("root", "ns"));
    assert_eq!(root.child_count(), 0);
    assert_eq!(root.item().name(), "root");
    assert_eq!(root.item().namespace(), "ns");
}

#[test]
fn traverse_down_visits_preorder() {
    let mut root = Node::new(simple("A", "ns"));
    let b = root.add_child_at(&Vec::new(), simple("B", "ns")).unwrap();
    root.add_child_at(&vec![b], simple("D", "ns")).unwrap();
    root.add_child_at(&Vec::new(), simple("C", "ns")).unwrap();
    let visited = root.traverse_down(&NoStop);
    assert_eq!(names_of(&visited), vec!["A", "B", "D", "C"]);
}

#[test]
fn traverse_down_prunes_whole_subtree() {
    let mut root = Node::new(simple("A", "ns"));
    let b = root.add_child_at(&Vec::new(), simple("Stop Node", "ns")).unwrap();
    root.add_child_at(&vec![b], simple("D", "ns")).unwrap();
    root.add_child_at(&Vec::new(), simple("C", "ns")).unwrap();
    let stop = NameEquals { name: String::from("Stop Node") };
    let visited = root.traverse_down(&stop);
    assert_eq!(names_of(&visited), vec!["A", "C"]);
}

#[test]
fn traverse_up_visits_chain_to_root() {
    let mut root = Node::new(simple("A", "ns"));
    let b = root.add_child_at(&Vec::new(), simple("B", "ns")).unwrap();
    let c = root.add_child_at(&vec![b], simple("C", "ns")).unwrap();
    let start = vec![b, c];
    let visited = root.traverse_up(&start, &NoStop);
    assert_eq!(names_of(&visited), vec!["C", "B", "A"]);
    assert!(visited.len() <= start.len() + 1);
}

#[test]
fn traverse_up_stops_at_first_match() {
    let mut root = Node::new(simple("A", "ns"));
    let b = root.add_child_at(&Vec::new(), simple("B", "ns")).unwrap();
    let c = root.add_child_at(&vec![b], simple("C", "ns")).unwrap();
    let stop = NameEquals { name: String::from("B") };
    let visited = root.traverse_up(&vec![b, c], &stop);
    assert_eq!(names_of(&visited), vec!["C"]);
}

#[test]
fn traverse_up_stale_handle_is_silent() {
    let root = Node::new(simple("A", "ns"));
    let visited = root.traverse_up(&vec![3, 1], &NoStop);
    assert!(visited.is_empty());
}

#[test]
fn find_parent_on_root_is_empty() {
    let root = Node::new(simple("A", "ns"));
    let cond = NameContains { pattern: String::from("") };
    assert!(root.find_parent(&Vec::new(), &cond).is_none());
}

#[test]
fn find_parent_returns_nearest_match() {
    let mut root = Node::new(simple("team", "ns"));
    let a = root.add_child_at(&Vec::new(), simple("team", "ns")).unwrap();
    let b = root.add_child_at(&vec![a], simple("other", "ns")).unwrap();
    let c = root.add_child_at(&vec![a, b], simple("leaf", "ns")).unwrap();
    let cond = NameEquals { name: String::from("team") };
    let found = root.find_parent(&vec![a, b, c], &cond).expect("an ancestor matches");
    assert_eq!(found, vec![a]);
}

#[test]
fn find_parent_stale_handle_is_empty() {
    let root = Node::new(simple("A", "ns"));
    let cond = NameEquals { name: String::from("A") };
    assert!(root.find_parent(&vec![9], &cond).is_none());
}

#[test]
fn find_child_checks_child_before_subtree_before_sibling() {
    let mut root = Node::new(simple("A", "ns"));
    let first = root.add_child_at(&Vec::new(), simple("plain", "ns")).unwrap();
    root.add_child_at(&vec![first], simple("goal", "ns")).unwrap();
    root.add_child_at(&Vec::new(), simple("goal", "ns")).unwrap();
    let cond = NameEquals { name: String::from("goal") };
    let found = root.find_child(&cond).expect("a descendant matches");
    assert_eq!(found, vec![0, 0]);
}

#[test]
fn find_child_misses_when_nothing_matches() {
    let mut root = Node::new(simple("A", "ns"));
    root.add_child(simple("B", "ns"));
    let cond = NameEquals { name: String::from("Z") };
    assert!(root.find_child(&cond).is_none());
}

#[test]
fn filter_and_collect_keeps_matching_children_in_order() {
    let mut root = Node::new(simple("root", "ns"));
    root.add_child(simple("Node 1", "ns"));
    root.add_child(simple("Other", "ns"));
    root.add_child(simple("Node 2", "ns"));
    let cond = NameContains { pattern: String::from("Node") };
    let kept = root.filter_and_collect(&cond);
    assert_eq!(kept, vec![0, 2]);
}

#[test]
fn filter_and_collect_is_shallow() {
    let mut root = Node::new(simple("root", "ns"));
    let plain = root.add_child_at(&Vec::new(), simple("Other", "ns")).unwrap();
    root.add_child_at(&vec![plain], simple("Node deep", "ns")).unwrap();
    let cond = NameContains { pattern: String::from("Node") };
    assert!(root.filter_and_collect(&cond).is_empty());
}

#[test]
fn serialize_leaf_document_is_exact() {
    let root = Node::new(simple("A", "B"));
    assert_eq!(
        root.serialize_to_yaml(),
        "{\"item\":{\"name\":\"A\",\"namespace\":\"B\"},\"children\":[]}"
    );
}

#[test]
fn serialize_escapes_quotes_and_backslashes() {
    let root = Node::new(simple("a\"b", "c\\d"));
    let doc = root.serialize_to_yaml();
    assert_eq!(
        doc,
        "{\"item\":{\"name\":\"a\\\"b\",\"namespace\":\"c\\\\d\"},\"children\":[]}"
    );
    let back = Node::from_yaml(doc.as_str()).expect("own document must load");
    assert_eq!(back.item().name(), "a\"b");
    assert_eq!(back.item().namespace(), "c\\d");
}

#[test]
fn round_trip_yields_identical_document() {
    let mut root = Node::new(simple("A", "ns1"));
    let b = root.add_child_at(&Vec::new(), simple("B \"quoted\"", "ns2")).unwrap();
    root.add_child_at(&vec![b], simple("C\\slash", "ns3")).unwrap();
    root.add_child_at(&Vec::new(), simple("D", "ns4")).unwrap();
    let doc = root.serialize_to_yaml();
    let reloaded = Node::from_yaml(doc.as_str()).expect("own document must load");
    assert_eq!(reloaded.serialize_to_yaml(), doc);
}

#[test]
fn from_yaml_rejects_malformed_documents() {
    assert!(Node::from_yaml("").is_none());
    assert!(Node::from_yaml("{\"item\":{\"name\":\"A\"}}").is_none());
    assert!(Node::from_yaml("{\"item\":{\"name\":\"A\",\"namespace\":\"B\"},\"children\":[]} ").is_none());
    assert!(Node::from_yaml("{\"item\":{\"name\":\"A\",\"namespace\":\"B\"},\"children\":[").is_none());
}

#[test]
fn forty_node_tree_reloads_with_identical_shape_and_names() {
    let root = create_tree(3, 3);
    let visited = root.traverse_down(&NoStop);
    assert_eq!(visited.len(), 40);
    let doc = root.serialize_to_yaml();
    let reloaded = Node::from_yaml(doc.as_str()).expect("own document must load");
    let revisited = reloaded.traverse_down(&NoStop);
    assert_eq!(visited, revisited);
    assert_eq!(reloaded.serialize_to_yaml(), doc);
}

#[test]
fn create_tree_numbers_nodes_by_level() {
    let root = create_tree(1, 2);
    let visited = root.traverse_down(&NoStop);
    let expected = vec![
        (String::from("Node 0"), String::from("Namespace 0")),
        (String::from("Node 2"), String::from("Namespace 2")),
        (String::from("Node 3"), String::from("Namespace 3")),
    ];
    assert_eq!(visited, expected);
}

#[test]
fn decimal_rendering_is_exact() {
    assert_eq!(usize_to_string(0), "0");
    assert_eq!(usize_to_string(7), "7");
    assert_eq!(usize_to_string(10), "10");
    assert_eq!(usize_to_string(90210), "90210");
}

#[test]
fn stale_handles_resolve_to_nothing() {
    let mut root = Node::new(simple("A", "ns"));
    root.add_child(simple("B", "ns"));
    assert!(root.get_node(&vec![1]).is_none());
    assert!(root.get_node(&vec![0, 0]).is_none());
    assert!(root.get_node(&vec![0]).is_some());
}

#[test]
fn attach_grafts_a_built_subtree() {
    let mut sub = Node::new(simple("S", "ns"));
    sub.add_child(simple("S1", "ns"));
    let mut root = Node::new(simple("A", "ns"));
    let idx = root.attach(sub);
    assert_eq!(idx, 0);
    let grafted = root.get_node(&vec![0, 0]).expect("grafted subtree must resolve");
    assert_eq!(grafted.item().name(), "S1");
}

#[test]
fn empty_fields_round_trip() {
    let root = Node::new(simple("", ""));
    let doc = root.serialize_to_yaml();
    assert_eq!(doc, "{\"item\":{\"name\":\"\",\"namespace\":\"\"},\"children\":[]}");
    let back = Node::from_yaml(doc.as_str()).expect("own document must load");
    assert_eq!(back.item().name(), "");
    assert_eq!(back.serialize_to_yaml(), doc);
}

#[test]
fn wide_characters_round_trip() {
    let mut root = Node::new(simple("trés", "ns"));
    root.add_child(simple("日本語", "名前空間"));
    let doc = root.serialize_to_yaml();
    let back = Node::from_yaml(doc.as_str()).expect("own document must load");
    assert_eq!(back.serialize_to_yaml(), doc);
    let child = back.get_node(&vec![0]).expect("child must resolve");
    assert_eq!(child.item().name(), "日本語");
    assert_eq!(child.item().namespace(), "名前空間");
}
