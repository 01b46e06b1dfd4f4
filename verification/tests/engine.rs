use simulation::engine::{refine, refine_pass, Neighbourhood};
use simulation::graph::NetworkXGraph;
use simulation::label::Label;
use simulation::relation::Sim;
use simulation::simulation::{
    compute, default_matcher, exact_matcher, get_simulation_exact, get_simulation_inter,
    has_simulation, initial_candidates, is_simulation_isomorphic, SimulationError,
};

fn kind(value: u64) -> Label {
    let mut l = Label::new();
    l.insert("kind", value);
    l
}

fn graph(nodes: &[(&str, u64)], edges: &[(&str, &str)]) -> NetworkXGraph {
    let mut g = NetworkXGraph::new();
    for (id, k) in nodes {
        g.add_node(id.to_string(), kind(*k));
    }
    for (s, t) in edges {
        g.add_edge(s.to_string(), t.to_string(), Label::new()).unwrap();
    }
    g
}

fn rows(sim: &Sim) -> Vec<Vec<usize>> {
    (0..sim.len()).map(|u| sim.candidates(u)).collect()
}

#[test]
fn relation_insert_remove_contains() {
    let mut sim = Sim::new(2, 3);
    assert_eq!(sim.len(), 2);
    assert_eq!(sim.target_count(), 3);
    assert_eq!(rows(&sim), vec![Vec::<usize>::new(), vec![]]);
    sim.insert(0, 2);
    sim.insert(0, 0);
    sim.insert(1, 1);
    assert!(sim.contains(0, 2));
    assert!(!sim.contains(0, 1));
    assert!(!sim.contains(5, 0));
    assert!(!sim.contains(0, 5));
    assert_eq!(rows(&sim), vec![vec![0, 2], vec![1]]);
    sim.remove(0, 0);
    sim.remove(0, 1);
    assert_eq!(rows(&sim), vec![vec![2], vec![1]]);
    assert!(has_simulation(&sim));
    sim.remove(1, 1);
    assert!(!has_simulation(&sim));
}

#[test]
fn empty_pattern_has_empty_relation_and_passes() {
    let p = NetworkXGraph::new();
    let t = graph(&[("a", 1), ("b", 2)], &[("a", "b")]);
    let sim = get_simulation_inter(&p, &t);
    assert_eq!(sim.len(), 0);
    assert!(has_simulation(&sim));
    assert!(is_simulation_isomorphic(&p, &t));
    let sim = compute(&p, &t, |_: &Label, _: &Label| Some(false)).unwrap();
    assert_eq!(sim.len(), 0);
    assert!(has_simulation(&sim));
    let sim = compute(&p, &NetworkXGraph::new(), |_: &Label, _: &Label| None).unwrap();
    assert_eq!(sim.len(), 0);
}

#[test]
fn empty_target_leaves_no_candidates() {
    let p = graph(&[("a", 1)], &[]);
    let t = NetworkXGraph::new();
    let sim = get_simulation_inter(&p, &t);
    assert_eq!(rows(&sim), vec![Vec::<usize>::new()]);
    assert!(!has_simulation(&sim));
}

#[test]
fn graph_simulates_itself_under_exact_labels() {
    let g = graph(
        &[("a", 1), ("b", 2), ("c", 1), ("d", 3)],
        &[("a", "b"), ("b", "c"), ("c", "a"), ("c", "d"), ("d", "d")],
    );
    let sim = get_simulation_exact(&g, &g);
    for u in 0..g.node_count() {
        assert!(sim.contains(u, u));
    }
    assert_eq!(rows(&sim), vec![vec![0], vec![1], vec![2], vec![3]]);
    assert!(has_simulation(&sim));
}

#[test]
fn isolated_nodes_with_matching_labels_stay_candidates() {
    let p = graph(&[("x", 1), ("p", 2), ("q", 3)], &[("p", "q")]);
    let t = graph(&[("r", 9), ("y", 1), ("s", 9), ("z", 1)], &[("r", "s"), ("s", "r")]);
    let sim = get_simulation_exact(&p, &t);
    assert_eq!(sim.candidates(0), vec![1, 3]);
    assert_eq!(sim.candidates(1), Vec::<usize>::new());
    let g = graph(&[("a", 1), ("b", 1), ("c", 2), ("d", 2)], &[("c", "d")]);
    let sim = get_simulation_exact(&g, &g);
    assert!(sim.contains(0, 1));
    assert!(sim.contains(1, 0));
}

#[test]
fn isolated_pattern_node_may_match_connected_target_node() {
    let p = graph(&[("x", 1)], &[]);
    let t = graph(&[("a", 1), ("b", 1)], &[("a", "b")]);
    let sim = get_simulation_exact(&p, &t);
    assert_eq!(rows(&sim), vec![vec![0, 1]]);
}

#[test]
fn incoming_edges_are_checked_too() {
    let p = graph(&[("a", 1), ("b", 2)], &[("a", "b")]);
    let t = graph(&[("lonely", 2), ("src", 1), ("dst", 2)], &[("src", "dst")]);
    let sim = get_simulation_exact(&p, &t);
    assert_eq!(rows(&sim), vec![vec![1], vec![2]]);
}

#[test]
fn removal_travels_along_a_chain() {
    let p = graph(&[("a", 1), ("b", 1), ("c", 1), ("d", 1)], &[("a", "b"), ("b", "c"), ("c", "d")]);
    let t = graph(&[("x", 1), ("y", 1), ("z", 1)], &[("x", "y"), ("y", "z")]);
    let sim = get_simulation_inter(&p, &t);
    assert_eq!(rows(&sim), vec![Vec::<usize>::new(), vec![], vec![], vec![]]);
    assert!(!has_simulation(&sim));
    let sim = get_simulation_inter(&t, &p);
    assert_eq!(rows(&sim), vec![vec![0, 1], vec![1, 2], vec![2, 3]]);
    assert!(has_simulation(&sim));
}

#[test]
fn cycle_is_simulated_by_a_loop() {
    let p = graph(&[("a", 1), ("b", 1), ("c", 1)], &[("a", "b"), ("b", "c"), ("c", "a")]);
    let t = graph(&[("o", 1)], &[("o", "o")]);
    assert_eq!(rows(&get_simulation_exact(&p, &t)), vec![vec![0], vec![0], vec![0]]);
    assert_eq!(rows(&get_simulation_exact(&t, &p)), vec![vec![0, 1, 2]]);
}

#[test]
fn passes_only_shrink_and_stop_at_the_fixpoint() {
    let p = graph(&[("a", 1), ("b", 1), ("c", 1)], &[("a", "b"), ("b", "c")]);
    let t = graph(&[("x", 1), ("y", 1), ("z", 1)], &[("x", "y"), ("y", "z")]);
    let pn = Neighbourhood::of(&p);
    let tn = Neighbourhood::of(&t);
    assert_eq!(pn.node_count(), 3);
    let mut sim = initial_candidates(&p, &t, default_matcher).unwrap();
    assert_eq!(rows(&sim), vec![vec![0, 1, 2], vec![0, 1, 2], vec![0, 1, 2]]);
    let mut previous = rows(&sim);
    let mut passes = 0;
    loop {
        let changed = refine_pass(&pn, &tn, &mut sim);
        let now = rows(&sim);
        for u in 0..3 {
            assert!(now[u].iter().all(|v| previous[u].contains(v)));
        }
        assert_eq!(changed, now != previous);
        previous = now;
        passes += 1;
        if !changed {
            break;
        }
    }
    assert!(passes <= 10);
    assert_eq!(previous, vec![vec![0], vec![1], vec![2]]);
    assert_eq!(rows(&get_simulation_inter(&p, &t)), previous);
}

#[test]
fn refine_starts_from_the_given_candidates() {
    let p = graph(&[("a", 1), ("b", 1)], &[("a", "b")]);
    let t = graph(&[("x", 1), ("y", 1), ("z", 1)], &[("x", "y"), ("x", "z")]);
    let mut sim = Sim::new(2, 3);
    sim.insert(0, 0);
    sim.insert(0, 1);
    sim.insert(1, 2);
    refine(&p, &t, &mut sim);
    assert_eq!(rows(&sim), vec![vec![0], vec![2]]);
    let mut none = Sim::new(2, 3);
    refine(&p, &t, &mut none);
    assert_eq!(rows(&none), vec![Vec::<usize>::new(), vec![]]);
}

#[test]
fn result_does_not_depend_on_the_order_of_nodes_and_edges() {
    let nodes = [("a", 1), ("b", 2), ("c", 1), ("d", 2), ("e", 3)];
    let edges = [("a", "b"), ("c", "d"), ("b", "e"), ("d", "a"), ("e", "e")];
    let p = graph(&[("u", 1), ("v", 2), ("w", 3)], &[("u", "v"), ("v", "w")]);
    let t1 = graph(&nodes, &edges);
    let mut nodes2 = nodes;
    nodes2.reverse();
    let mut edges2 = edges;
    edges2.reverse();
    let t2 = graph(&nodes2, &edges2);
    let s1 = get_simulation_exact(&p, &t1);
    let s2 = get_simulation_exact(&p, &t2);
    for u in 0..3 {
        for (id, _) in nodes {
            let v1 = t1.node_index(id).unwrap();
            let v2 = t2.node_index(id).unwrap();
            assert_eq!(s1.contains(u, v1), s2.contains(u, v2));
        }
    }
    assert_eq!(rows(&s1), vec![vec![0], vec![1], vec![4]]);
}

#[test]
fn custom_matcher_decides_the_candidates() {
    let p = graph(&[("a", 10), ("b", 20)], &[("a", "b")]);
    let t = graph(&[("x", 11), ("y", 19), ("z", 50)], &[("x", "y"), ("x", "z")]);
    let near = |a: &Label, b: &Label| match (a.get("kind"), b.get("kind")) {
        (Some(x), Some(y)) => Some(x.abs_diff(y) <= 1),
        _ => None,
    };
    let sim = compute(&p, &t, near).unwrap();
    assert_eq!(rows(&sim), vec![vec![0], vec![1]]);
    let sim = compute(&p, &t, exact_matcher).unwrap();
    assert_eq!(rows(&sim), vec![Vec::<usize>::new(), vec![]]);
    let sim = compute(&p, &t, default_matcher).unwrap();
    assert_eq!(rows(&sim), vec![vec![0], vec![1, 2]]);
}

#[test]
fn first_failing_comparison_is_the_error() {
    let p = graph(&[("a", 1), ("b", 2)], &[]);
    let t = graph(&[("x", 1), ("y", 2), ("z", 3)], &[]);
    let r = compute(&p, &t, |_: &Label, b: &Label| {
        if b.get("kind") == Some(2) {
            None
        } else {
            Some(true)
        }
    });
    assert_eq!(
        r.err(),
        Some(SimulationError::LabelComparison { pattern_node: 0, target_node: 1 })
    );
    let r = initial_candidates(&p, &t, |a: &Label, b: &Label| {
        if a.get("kind") == Some(2) && b.get("kind") == Some(3) {
            None
        } else {
            Some(true)
        }
    });
    assert_eq!(
        r.err(),
        Some(SimulationError::LabelComparison { pattern_node: 1, target_node: 2 })
    );
}

#[test]
fn default_comparison_lets_values_differ() {
    let p = graph(&[("a", 1), ("b", 2)], &[("a", "b")]);
    let t = graph(&[("x", 7), ("y", 8)], &[("x", "y")]);
    assert_eq!(rows(&get_simulation_inter(&p, &t)), vec![vec![0], vec![1]]);
    assert!(is_simulation_isomorphic(&p, &t));
    assert_eq!(rows(&get_simulation_exact(&p, &t)), vec![Vec::<usize>::new(), vec![]]);
}

#[test]
fn parallel_edges_and_loops_in_the_pattern() {
    let p = graph(&[("a", 1), ("b", 1)], &[("a", "b"), ("a", "b"), ("b", "b")]);
    let t = graph(&[("x", 1), ("y", 1), ("z", 1)], &[("x", "y"), ("y", "y"), ("z", "x")]);
    let sim = get_simulation_exact(&p, &t);
    assert_eq!(rows(&sim), vec![vec![0, 1], vec![1]]);
}
