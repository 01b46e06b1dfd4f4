use simulation::graph::{GraphError, NetworkXGraph};
use simulation::label::{native_same_label_fn, Label};
use simulation::simulation::{
    compute, get_simulation_exact, get_simulation_inter, has_simulation, is_simulation_isomorphic,
    SimulationError,
};

const USER: u64 = 1;
const ORDER: u64 = 2;

fn typed(value: u64) -> Label {
    let mut l = Label::new();
    l.insert("type", value);
    l
}

fn pattern_user_order() -> NetworkXGraph {
    let mut p = NetworkXGraph::new();
    p.add_node("n1".to_string(), typed(USER));
    p.add_node("n2".to_string(), typed(ORDER));
    p.add_edge("n1".to_string(), "n2".to_string(), Label::new()).unwrap();
    p
}

#[test]
fn user_with_two_orders_is_simulated() {
    let p = pattern_user_order();
    let mut t = NetworkXGraph::new();
    t.add_node("m1".to_string(), typed(USER));
    t.add_node("m2".to_string(), typed(ORDER));
    t.add_node("m3".to_string(), typed(ORDER));
    t.add_edge("m1".to_string(), "m2".to_string(), Label::new()).unwrap();
    t.add_edge("m1".to_string(), "m3".to_string(), Label::new()).unwrap();

    let sim = get_simulation_exact(&p, &t);
    assert_eq!(sim.candidates(0), vec![0]);
    assert_eq!(sim.candidates(1), vec![1, 2]);
    assert!(has_simulation(&sim));

    let sim = get_simulation_inter(&p, &t);
    assert_eq!(sim.candidates(0), vec![0]);
    assert_eq!(sim.candidates(1), vec![1, 2]);
    assert!(is_simulation_isomorphic(&p, &t));
}

#[test]
fn user_without_order_is_not_simulated() {
    let p = pattern_user_order();
    let mut t = NetworkXGraph::new();
    t.add_node("m1".to_string(), typed(USER));

    let sim = get_simulation_exact(&p, &t);
    assert_eq!(sim.candidates(0), Vec::<usize>::new());
    assert_eq!(sim.candidates(1), Vec::<usize>::new());
    assert!(!has_simulation(&sim));
    assert!(!is_simulation_isomorphic(&p, &t));
}

#[test]
fn default_matcher_checks_keys_only() {
    let mut a = Label::new();
    a.insert("a", 1);
    let mut b = Label::new();
    b.insert("a", 2);
    b.insert("b", 3);
    assert!(native_same_label_fn(&a, &b));

    let mut c = Label::new();
    c.insert("b", 3);
    assert!(!native_same_label_fn(&a, &c));
    assert!(native_same_label_fn(&Label::new(), &c));
    assert!(!a.same_as(&b));
}

#[test]
fn edge_to_unknown_node_is_refused() {
    let mut g = NetworkXGraph::new();
    g.add_node("a".to_string(), Label::new());
    assert_eq!(
        g.add_edge("x".to_string(), "a".to_string(), Label::new()),
        Err(GraphError::UnknownSource)
    );
    assert_eq!(
        g.add_edge("a".to_string(), "x".to_string(), Label::new()),
        Err(GraphError::UnknownTarget)
    );
    assert_eq!(g.edge_count(), 0);
}

#[test]
fn failing_comparison_is_reported() {
    let p = pattern_user_order();
    let t = pattern_user_order();
    let r = compute(&p, &t, |a: &Label, b: &Label| {
        if a.get("type") == Some(ORDER) && b.get("type") == Some(USER) {
            None
        } else {
            Some(a.same_as(b))
        }
    });
    assert_eq!(
        r.err(),
        Some(SimulationError::LabelComparison { pattern_node: 1, target_node: 0 })
    );
}
