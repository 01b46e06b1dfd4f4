//! The simulation of a pattern graph by a target graph: candidates by label,
//! refinement to the greatest dual simulation, and the verdict.

use vstd::prelude::*;
use vstd::pervasive::unreached;
use crate::engine::refine;
use crate::graph::{GraphView, NetworkXGraph};
use crate::label::{key_coverage, native_same_label_fn, same_attributes, Label};
use crate::model::{
    greatest_dual_simulation, inhabited, label_candidates, total, LabelView, Relation,
};
use crate::relation::Sim;

verus! {

/// Why no simulation was computed.
#[derive(Debug, Clone, Copy, PartialEq, Eq)]
pub enum SimulationError {
    /// The label comparison gave no answer for the labels of this pattern
    /// node and this target node.
    LabelComparison { pattern_node: usize, target_node: usize },
}

/// The greatest dual simulation of `pattern` by `target` among the
/// candidates that `accepts` allows by label.
pub open spec fn simulation_by(
    pattern: GraphView,
    target: GraphView,
    accepts: spec_fn(LabelView, LabelView) -> bool,
) -> Relation {
    greatest_dual_simulation(
        pattern.digraph(),
        target.digraph(),
        label_candidates(pattern.labels, target.labels, accepts),
    )
}

/// `init` holds, for every pattern node and every target node, an answer
/// that `matcher` may give for their labels.
pub open spec fn answers_of<F: Fn(&Label, &Label) -> Option<bool>>(
    pattern: &NetworkXGraph,
    target: &NetworkXGraph,
    matcher: F,
    init: Relation,
) -> bool {
    &&& init.len() == pattern.node_seq().len()
    &&& forall|u: int, v: int|
        0 <= u < init.len() && #[trigger] init[u].contains(v) ==> 0 <= v < target.node_seq().len()
    &&& forall|u: int, v: int|
        0 <= u < pattern.node_seq().len() && 0 <= v < target.node_seq().len()
            ==> #[trigger] matcher.ensures(
            (&pattern.node_seq()[u].label(), &target.node_seq()[v].label()),
            Some(init[u].contains(v)),
        )
}

/// `matcher` may be called on the labels of every pattern node and target
/// node.
pub open spec fn callable_on<F: Fn(&Label, &Label) -> Option<bool>>(
    pattern: &NetworkXGraph,
    target: &NetworkXGraph,
    matcher: F,
) -> bool {
    forall|u: int, v: int|
        0 <= u < pattern.node_seq().len() && 0 <= v < target.node_seq().len()
            ==> #[trigger] matcher.requires(
            (&pattern.node_seq()[u].label(), &target.node_seq()[v].label()),
        )
}

/// `seen` holds an answer that `matcher` may give for every pair of a
/// pattern node and a target node that comes before the pair `(u, v)`, pattern
/// nodes first.
pub open spec fn answered_before<F: Fn(&Label, &Label) -> Option<bool>>(
    pattern: &NetworkXGraph,
    target: &NetworkXGraph,
    matcher: F,
    seen: Relation,
    u: int,
    v: int,
) -> bool {
    forall|a: int, b: int|
        0 <= a < pattern.node_seq().len() && 0 <= b < target.node_seq().len() && (a < u || (a == u
            && b < v)) ==> #[trigger] matcher.ensures(
            (&pattern.node_seq()[a].label(), &target.node_seq()[b].label()),
            Some(seen[a].contains(b)),
        )
}

/// `matcher` gave no answer for the labels of the two nodes that `e` names,
/// and an answer for every pair before it.
pub open spec fn failed_at<F: Fn(&Label, &Label) -> Option<bool>>(
    pattern: &NetworkXGraph,
    target: &NetworkXGraph,
    matcher: F,
    e: SimulationError,
) -> bool {
    match e {
        SimulationError::LabelComparison { pattern_node, target_node } => {
            &&& pattern_node < pattern.node_seq().len()
            &&& target_node < target.node_seq().len()
            &&& matcher.ensures(
                (
                    &pattern.node_seq()[pattern_node as int].label(),
                    &target.node_seq()[target_node as int].label(),
                ),
                None,
            )
            &&& exists|seen: Relation| #[trigger]
                answered_before(pattern, target, matcher, seen, pattern_node as int, target_node as int)
        },
    }
}

/// Asks `matcher` once for every pattern node and target node, pattern nodes
/// first, and collects the pairs it accepts. Stops at the first pair for
/// which `matcher` gives no answer and reports that pair.
pub fn initial_candidates<F: Fn(&Label, &Label) -> Option<bool>>(
    pattern: &NetworkXGraph,
    target: &NetworkXGraph,
    matcher: F,
) -> (r: Result<Sim, SimulationError>)
    requires
        callable_on(pattern, target, matcher),
    ensures
        match r {
            Ok(sim) => {
                &&& sim.wf()
                &&& sim.targets() == target.node_seq().len()
                &&& answers_of(pattern, target, matcher, sim@)
            },
            Err(e) => failed_at(pattern, target, matcher, e),
        },
{
    let n = pattern.node_count();
    let w = target.node_count();
    let mut sim = Sim::new(n, w);
    let mut u: usize = 0;
    while u < n
        invariant
            callable_on(pattern, target, matcher),
            n == pattern.node_seq().len(),
            w == target.node_seq().len(),
            sim.wf(),
            sim.targets() == w,
            sim@.len() == n,
            0 <= u <= n,
            forall|a: int, b: int| 0 <= a < n && #[trigger] sim@[a].contains(b) ==> 0 <= b < w && a < u,
            forall|a: int, b: int|
                0 <= a < u && 0 <= b < w ==> #[trigger] matcher.ensures(
                    (&pattern.node_seq()[a].label(), &target.node_seq()[b].label()),
                    Some(sim@[a].contains(b)),
                ),
        decreases n - u,
    {
        let mut v: usize = 0;
        while v < w
            invariant
                callable_on(pattern, target, matcher),
                n == pattern.node_seq().len(),
                w == target.node_seq().len(),
                sim.wf(),
                sim.targets() == w,
                sim@.len() == n,
                0 <= u < n,
                0 <= v <= w,
                forall|a: int, b: int|
                    0 <= a < n && #[trigger] sim@[a].contains(b) ==> 0 <= b < w && (a < u || (a == u
                        && b < v)),
                forall|a: int, b: int|
                    0 <= a < u && 0 <= b < w ==> #[trigger] matcher.ensures(
                        (&pattern.node_seq()[a].label(), &target.node_seq()[b].label()),
                        Some(sim@[a].contains(b)),
                    ),
                forall|b: int|
                    0 <= b < v ==> #[trigger] matcher.ensures(
                        (&pattern.node_seq()[u as int].label(), &target.node_seq()[b].label()),
                        Some(sim@[u as int].contains(b)),
                    ),
            decreases w - v,
        {
            let a = pattern.node_label(u);
            let b = target.node_label(v);
            assert(matcher.requires(
                (&pattern.node_seq()[u as int].label(), &target.node_seq()[v as int].label()),
            ));
            let ghost before = sim@;
            let answer = matcher(a, b);
            match answer {
                Some(true) => {
                    sim.insert(u, v);
                },
                Some(false) => {},
                None => {
                    assert(answered_before(pattern, target, matcher, sim@, u as int, v as int));
                    return Err(
                        SimulationError::LabelComparison { pattern_node: u, target_node: v },
                    );
                },
            }
            proof {
                assert(answer == Some(sim@[u as int].contains(v as int)));
                assert forall|x: int, y: int| 0 <= x < u && 0 <= y < w implies #[trigger] matcher.ensures(
                    (&pattern.node_seq()[x].label(), &target.node_seq()[y].label()),
                    Some(sim@[x].contains(y)),
                ) by {
                    assert(sim@[x] == before[x]);
                    assert(matcher.ensures(
                        (&pattern.node_seq()[x].label(), &target.node_seq()[y].label()),
                        Some(before[x].contains(y)),
                    ));
                }
                assert forall|y: int| 0 <= y < v + 1 implies #[trigger] matcher.ensures(
                    (&pattern.node_seq()[u as int].label(), &target.node_seq()[y].label()),
                    Some(sim@[u as int].contains(y)),
                ) by {
                    if y < v {
                        assert(sim@[u as int].contains(y) == before[u as int].contains(y));
                        assert(matcher.ensures(
                            (&pattern.node_seq()[u as int].label(), &target.node_seq()[y].label()),
                            Some(before[u as int].contains(y)),
                        ));
                    }
                }
            }
            v += 1;
        }
        u += 1;
    }
    Ok(sim)
}

/// Computes the greatest dual simulation of `pattern` by `target` among the
/// candidates that `matcher` accepts by label.
///
/// `matcher` is asked once for every pattern node and target node. Where it
/// gives no answer the computation stops with that pair as the error. Else
/// the result is the greatest relation in which every candidate of a pattern
/// node was accepted by `matcher`, and answers every outgoing and every
/// incoming edge of the pattern node by an edge to, or from, a candidate of
/// the node at the other end.
pub fn compute<F: Fn(&Label, &Label) -> Option<bool>>(
    pattern: &NetworkXGraph,
    target: &NetworkXGraph,
    matcher: F,
) -> (r: Result<Sim, SimulationError>)
    requires
        pattern.wf(),
        target.wf(),
        callable_on(pattern, target, matcher),
    ensures
        match r {
            Ok(sim) => {
                &&& sim.wf()
                &&& sim.targets() == target@.labels.len()
                &&& exists|init: Relation|
                    #![trigger answers_of(pattern, target, matcher, init)]
                    answers_of(pattern, target, matcher, init) && sim@ == greatest_dual_simulation(
                        pattern@.digraph(),
                        target@.digraph(),
                        init,
                    )
            },
            Err(e) => failed_at(pattern, target, matcher, e),
        },
{
    match initial_candidates(pattern, target, matcher) {
        Ok(init) => {
            let mut sim = init;
            let ghost start = sim@;
            proof {
                pattern.lemma_nodes();
                target.lemma_nodes();
            }
            refine(pattern, target, &mut sim);
            assert(answers_of(pattern, target, matcher, start));
            Ok(sim)
        },
        Err(e) => Err(e),
    }
}

/// The greatest dual simulation under the default label comparison, which
/// asks only that the target label has every key of the pattern label.
pub open spec fn default_simulation(pattern: GraphView, target: GraphView) -> Relation {
    simulation_by(pattern, target, |a: LabelView, b: LabelView| key_coverage(a, b))
}

/// The greatest dual simulation under exact label comparison: same keys,
/// same values.
pub open spec fn exact_simulation(pattern: GraphView, target: GraphView) -> Relation {
    simulation_by(pattern, target, |a: LabelView, b: LabelView| same_attributes(a, b))
}

/// Where `matcher` can only give the answer that `accepts` describes, the
/// answers collected from it are the candidates that `accepts` allows.
pub proof fn lemma_answers_determined<F: Fn(&Label, &Label) -> Option<bool>>(
    pattern: &NetworkXGraph,
    target: &NetworkXGraph,
    matcher: F,
    accepts: spec_fn(LabelView, LabelView) -> bool,
    init: Relation,
)
    requires
        answers_of(pattern, target, matcher, init),
        forall|a: &Label, b: &Label, r: Option<bool>|
            #[trigger] matcher.ensures((a, b), r) ==> r == Some(accepts(a@, b@)),
    ensures
        init == label_candidates(pattern@.labels, target@.labels, accepts),
{
    pattern.lemma_nodes();
    target.lemma_nodes();
    let c = label_candidates(pattern@.labels, target@.labels, accepts);
    assert forall|u: int| 0 <= u < init.len() implies init[u] =~= c[u] by {
        assert forall|v: int| init[u].contains(v) <==> c[u].contains(v) by {
            if 0 <= v < target.node_seq().len() {
                assert(matcher.ensures(
                    (&pattern.node_seq()[u].label(), &target.node_seq()[v].label()),
                    Some(init[u].contains(v)),
                ));
            }
        }
    }
    assert(init =~= c);
}

/// The default label comparison as a matcher: it always answers, and accepts
/// a target label that has every key of the pattern label.
pub fn default_matcher(a: &Label, b: &Label) -> (r: Option<bool>)
    ensures
        r == Some(key_coverage(a@, b@)),
{
    Some(native_same_label_fn(a, b))
}

/// Exact label comparison as a matcher: it always answers, and accepts a
/// target label with the same keys and the same values.
pub fn exact_matcher(a: &Label, b: &Label) -> (r: Option<bool>)
    ensures
        r == Some(same_attributes(a@, b@)),
{
    Some(a.same_as(b))
}

/// The greatest dual simulation of `graph1` by `graph2` under the default
/// label comparison.
pub fn get_simulation_inter(graph1: &NetworkXGraph, graph2: &NetworkXGraph) -> (sim: Sim)
    requires
        graph1.wf(),
        graph2.wf(),
    ensures
        sim.wf(),
        sim.targets() == graph2@.labels.len(),
        sim@ == default_simulation(graph1@, graph2@),
{
    match compute(graph1, graph2, default_matcher) {
        Ok(sim) => {
            proof {
                let init = choose|init: Relation|
                    #![trigger answers_of(graph1, graph2, default_matcher, init)]
                    answers_of(graph1, graph2, default_matcher, init) && sim@
                        == greatest_dual_simulation(graph1@.digraph(), graph2@.digraph(), init);
                lemma_answers_determined(
                    graph1,
                    graph2,
                    default_matcher,
                    |a: LabelView, b: LabelView| key_coverage(a, b),
                    init,
                );
            }
            sim
        },
        Err(e) => {
            proof {
                assert(failed_at(graph1, graph2, default_matcher, e));
            }
            unreached()
        },
    }
}

/// The greatest dual simulation of `graph1` by `graph2` under exact label
/// comparison.
pub fn get_simulation_exact(graph1: &NetworkXGraph, graph2: &NetworkXGraph) -> (sim: Sim)
    requires
        graph1.wf(),
        graph2.wf(),
    ensures
        sim.wf(),
        sim.targets() == graph2@.labels.len(),
        sim@ == exact_simulation(graph1@, graph2@),
{
    match compute(graph1, graph2, exact_matcher) {
        Ok(sim) => {
            proof {
                let init = choose|init: Relation|
                    #![trigger answers_of(graph1, graph2, exact_matcher, init)]
                    answers_of(graph1, graph2, exact_matcher, init) && sim@
                        == greatest_dual_simulation(graph1@.digraph(), graph2@.digraph(), init);
                lemma_answers_determined(
                    graph1,
                    graph2,
                    exact_matcher,
                    |a: LabelView, b: LabelView| same_attributes(a, b),
                    init,
                );
            }
            sim
        },
        Err(e) => {
            proof {
                assert(failed_at(graph1, graph2, exact_matcher, e));
            }
            unreached()
        },
    }
}

/// Whether every pattern node has a candidate in `sim`. A relation over no
/// pattern node at all passes.
pub fn has_simulation(sim: &Sim) -> (r: bool)
    requires
        sim.wf(),
    ensures
        r == total(sim@),
{
    let n = sim.len();
    let w = sim.target_count();
    let mut u: usize = 0;
    while u < n
        invariant
            sim.wf(),
            n == sim@.len(),
            w == sim.targets(),
            0 <= u <= n,
            forall|a: int| 0 <= a < u ==> inhabited(#[trigger] sim@[a]),
        decreases n - u,
    {
        let mut found = false;
        let mut v: usize = 0;
        while v < w && !found
            invariant
                sim.wf(),
                n == sim@.len(),
                w == sim.targets(),
                0 <= u < n,
                0 <= v <= w,
                found ==> inhabited(sim@[u as int]),
                !found ==> forall|b: int| 0 <= b < v ==> !sim@[u as int].contains(b),
            decreases w - v,
        {
            if sim.contains(u, v) {
                found = true;
            }
            v += 1;
        }
        if !found {
            proof {
                sim.lemma_bounded();
                assert(forall|b: int| !sim@[u as int].contains(b));
                assert(!inhabited(sim@[u as int]));
            }
            return false;
        }
        u += 1;
    }
    true
}

/// Whether `graph2` simulates `graph1` under the default label comparison:
/// every node of `graph1` keeps a candidate in the greatest dual simulation.
/// This asks for a simulation, not for an isomorphism: two nodes may share a
/// candidate, and nodes of `graph2` may stay unused.
pub fn is_simulation_isomorphic(graph1: &NetworkXGraph, graph2: &NetworkXGraph) -> (r: bool)
    requires
        graph1.wf(),
        graph2.wf(),
    ensures
        r == total(default_simulation(graph1@, graph2@)),
{
    let sim = get_simulation_inter(graph1, graph2);
    has_simulation(&sim)
}

} // verus!
