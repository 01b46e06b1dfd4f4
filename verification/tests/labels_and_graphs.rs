use simulation::graph::{GraphError, NetworkXGraph};
use simulation::label::{native_same_label_fn, Label};

fn label(pairs: &[(&str, u64)]) -> Label {
    let mut l = Label::new();
    for (k, v) in pairs {
        l.insert(k, *v);
    }
    l
}

#[test]
fn label_insert_get_and_overwrite() {
    let mut l = Label::new();
    assert_eq!(l.len(), 0);
    assert_eq!(l.get("colour"), None);
    l.insert("colour", 7);
    l.insert("size", 9);
    assert_eq!(l.len(), 2);
    assert_eq!(l.get("colour"), Some(7));
    assert_eq!(l.get("size"), Some(9));
    assert!(l.contains_key("size"));
    assert!(!l.contains_key("weight"));
    l.insert("colour", 8);
    assert_eq!(l.len(), 2);
    assert_eq!(l.get("colour"), Some(8));
    assert_eq!(l.key_at(0), "colour");
    assert_eq!(l.key_at(1), "size");
    assert_eq!(l.value_at(0), 8);
    assert_eq!(l.value_at(1), 9);
}

#[test]
fn label_equality_ignores_insertion_order() {
    let a = label(&[("x", 1), ("y", 2)]);
    let b = label(&[("y", 2), ("x", 1)]);
    let c = label(&[("x", 1), ("y", 3)]);
    let d = label(&[("x", 1)]);
    assert!(a.same_as(&b));
    assert!(a == b);
    assert!(!a.same_as(&c));
    assert!(a != c);
    assert!(!a.same_as(&d));
    assert!(!d.same_as(&a));
    assert!(Label::new().same_as(&Label::new()));
}

#[test]
fn label_clone_keeps_attributes() {
    let a = label(&[("x", 1), ("y", 2)]);
    let b = a.clone();
    assert!(a == b);
    assert_eq!(b.key_at(0), "x");
    assert_eq!(b.get("y"), Some(2));
}

#[test]
fn key_coverage_is_not_symmetric() {
    let small = label(&[("a", 1)]);
    let large = label(&[("a", 2), ("b", 3)]);
    assert!(native_same_label_fn(&small, &large));
    assert!(!native_same_label_fn(&large, &small));
    assert!(native_same_label_fn(&Label::new(), &Label::new()));
    assert!(native_same_label_fn(&Label::new(), &large));
    assert!(!native_same_label_fn(&small, &Label::new()));
}

#[test]
fn nodes_are_numbered_in_insertion_order() {
    let mut g = NetworkXGraph::new();
    assert_eq!(g.node_count(), 0);
    assert_eq!(g.add_node("a".to_string(), label(&[("k", 1)])), 0);
    assert_eq!(g.add_node("b".to_string(), label(&[("k", 2)])), 1);
    assert_eq!(g.add_node("c".to_string(), Label::new()), 2);
    assert_eq!(g.node_count(), 3);
    assert_eq!(g.node_index("b"), Some(1));
    assert_eq!(g.node_index("z"), None);
    assert_eq!(g.nodes()[1].id(), 1);
    assert_eq!(g.nodes()[1].attributes().get("k"), Some(2));
    assert_eq!(g.node_label(0).get("k"), Some(1));
}

#[test]
fn identifier_added_twice_stands_for_the_later_node() {
    let mut g = NetworkXGraph::new();
    g.add_node("a".to_string(), label(&[("k", 1)]));
    assert_eq!(g.add_node("a".to_string(), label(&[("k", 2)])), 1);
    assert_eq!(g.node_count(), 2);
    assert_eq!(g.node_index("a"), Some(1));
    assert_eq!(g.get_node_attributes("a").unwrap().get("k"), Some(2));
}

#[test]
fn edges_keep_order_and_allow_loops_and_repeats() {
    let mut g = NetworkXGraph::new();
    g.add_node("a".to_string(), Label::new());
    g.add_node("b".to_string(), Label::new());
    assert_eq!(g.add_edge("a".to_string(), "b".to_string(), label(&[("w", 1)])), Ok(()));
    assert_eq!(g.add_edge("a".to_string(), "b".to_string(), label(&[("w", 2)])), Ok(()));
    assert_eq!(g.add_edge("b".to_string(), "b".to_string(), label(&[("w", 3)])), Ok(()));
    assert_eq!(g.edge_count(), 3);
    assert_eq!(g.get_edges_pair(), vec![(0, 1), (0, 1), (1, 1)]);
    assert_eq!(g.endpoints(2), (1, 1));
    assert_eq!(g.edges()[1].source(), 0);
    assert_eq!(g.edges()[1].target(), 1);
    assert_eq!(g.edges()[1].attributes().get("w"), Some(2));
    assert_eq!(g.get_edge_attributes("a", "b").unwrap().get("w"), Some(1));
    assert_eq!(g.get_edge_attributes("b", "b").unwrap().get("w"), Some(3));
    assert!(g.get_edge_attributes("b", "a").is_none());
    assert!(g.get_edge_attributes("a", "nobody").is_none());
    assert!(g.get_edge_attributes("nobody", "a").is_none());
}

#[test]
fn refused_edge_leaves_the_graph_unchanged() {
    let mut g = NetworkXGraph::new();
    g.add_node("a".to_string(), Label::new());
    g.add_edge("a".to_string(), "a".to_string(), Label::new()).unwrap();
    assert_eq!(
        g.add_edge("ghost".to_string(), "a".to_string(), Label::new()),
        Err(GraphError::UnknownSource)
    );
    assert_eq!(
        g.add_edge("ghost".to_string(), "spirit".to_string(), Label::new()),
        Err(GraphError::UnknownSource)
    );
    assert_eq!(
        g.add_edge("a".to_string(), "spirit".to_string(), Label::new()),
        Err(GraphError::UnknownTarget)
    );
    assert_eq!(g.edge_count(), 1);
    assert_eq!(g.node_count(), 1);
}

#[test]
fn node_attributes_of_unknown_identifier_are_absent() {
    let mut g = NetworkXGraph::new();
    g.add_node("a".to_string(), label(&[("k", 5)]));
    assert!(g.get_node_attributes("b").is_none());
    assert_eq!(g.get_node_attributes("a").unwrap().get("k"), Some(5));
}

#[test]
fn adjacency_lists_follow_edge_order() {
    let mut g = NetworkXGraph::new();
    for id in ["a", "b", "c"] {
        g.add_node(id.to_string(), Label::new());
    }
    g.add_edge("a".to_string(), "c".to_string(), Label::new()).unwrap();
    g.add_edge("a".to_string(), "b".to_string(), Label::new()).unwrap();
    g.add_edge("c".to_string(), "a".to_string(), Label::new()).unwrap();
    g.add_edge("a".to_string(), "c".to_string(), Label::new()).unwrap();
    let post = g.get_adj();
    let pre = g.get_adj_inv();
    assert_eq!(post.len(), 3);
    assert_eq!(post.neighbours_of(0), &vec![2, 1, 2]);
    assert_eq!(post.neighbours_of(1), &Vec::<usize>::new());
    assert_eq!(post.neighbours_of(2), &vec![0]);
    assert_eq!(pre.neighbours_of(0), &vec![2]);
    assert_eq!(pre.neighbours_of(1), &vec![0]);
    assert_eq!(pre.neighbours_of(2), &vec![0, 0]);
}

#[test]
fn graph_clone_stands_for_the_same_graph() {
    let mut g = NetworkXGraph::new();
    g.add_node("a".to_string(), label(&[("k", 1)]));
    g.add_node("b".to_string(), label(&[("k", 2)]));
    g.add_edge("a".to_string(), "b".to_string(), label(&[("w", 4)])).unwrap();
    let h = g.clone();
    assert_eq!(h.node_count(), 2);
    assert_eq!(h.get_edges_pair(), vec![(0, 1)]);
    assert_eq!(h.node_index("b"), Some(1));
    assert_eq!(h.get_edge_attributes("a", "b").unwrap().get("w"), Some(4));
    assert!(h.nodes()[0] == g.nodes()[0]);
    assert!(h.edges()[0] == g.edges()[0]);
    assert!(h.nodes()[0] != g.nodes()[1]);
}

#[test]
fn default_comparison_on_nodes() {
    let mut g = NetworkXGraph::new();
    g.add_node("a".to_string(), label(&[("k", 1)]));
    g.add_node("b".to_string(), label(&[("k", 2), ("j", 3)]));
    let a = &g.nodes()[0];
    let b = &g.nodes()[1];
    assert!(g.label_same(a, b));
    assert!(!g.label_same(b, a));
    assert_eq!(g.get_label(b).get("j"), Some(3));
}
