//! What holds of refinement and of the greatest dual simulation, whatever
//! the graphs.

use vstd::prelude::*;
use crate::graph::{lemma_digraph_wf, GraphView};
use crate::label::same_attributes;
use crate::model::{
    answered, greatest_dual_simulation, is_dual_simulation, keeps_simulations, label_candidates,
    lemma_fixpoint_is_greatest, lemma_greatest_contains, lemma_greatest_is_dual_simulation,
    lemma_remove_unanswered, refinement_run, refinement_step, stable, total, within, without,
    Digraph, LabelView, Relation,
};
use crate::simulation::{exact_simulation, simulation_by};

verus! {

/// Refinement only shrinks: in a run of refinement steps every later
/// relation lies inside every earlier one, node by node.
pub proof fn lemma_run_monotone(
    p: Digraph,
    t: Digraph,
    init: Relation,
    run: Seq<Relation>,
    i: int,
    j: int,
)
    requires
        refinement_run(p, t, init, run),
        0 <= i <= j < run.len(),
    ensures
        within(run[j], run[i]),
    decreases j - i,
{
    if i < j {
        lemma_run_monotone(p, t, init, run, i, j - 1);
        assert(refinement_step(p, t, run[j - 1], run[j]));
        let (u, v) = choose|u: int, v: int|
            0 <= u < run[j - 1].len() && #[trigger] run[j - 1][u].contains(v) && !answered(
                p,
                t,
                run[j - 1],
                u,
                v,
            ) && run[j] == without(run[j - 1], u, v);
        assert(within(run[j], run[j - 1]));
    }
}

/// Refinement loses no dual simulation: every relation of a run of
/// refinement steps contains the greatest dual simulation among the
/// candidates the run started with. A run that is cut short therefore leaves
/// too many candidates, never too few.
pub proof fn lemma_run_keeps_greatest(
    p: Digraph,
    t: Digraph,
    init: Relation,
    run: Seq<Relation>,
    i: int,
)
    requires
        p.wf(),
        init.len() == p.nodes,
        refinement_run(p, t, init, run),
        0 <= i < run.len(),
    ensures
        run[i].len() == p.nodes,
        keeps_simulations(p, t, init, run[i]),
        within(greatest_dual_simulation(p, t, init), run[i]),
    decreases i,
{
    if i > 0 {
        lemma_run_keeps_greatest(p, t, init, run, i - 1);
        assert(refinement_step(p, t, run[i - 1], run[i]));
        let (u, v) = choose|u: int, v: int|
            0 <= u < run[i - 1].len() && #[trigger] run[i - 1][u].contains(v) && !answered(
                p,
                t,
                run[i - 1],
                u,
                v,
            ) && run[i] == without(run[i - 1], u, v);
        lemma_remove_unanswered(p, t, run[i - 1], u, v);
    }
    lemma_greatest_is_dual_simulation(p, t, init);
    let g = greatest_dual_simulation(p, t, init);
    assert(within(g, init));
}

/// Every run of refinement steps that ends in a stable relation ends in the
/// greatest dual simulation among the candidates it started with, whichever
/// failing pair each step took out.
pub proof fn lemma_run_reaches_greatest(p: Digraph, t: Digraph, init: Relation, run: Seq<Relation>)
    requires
        p.wf(),
        init.len() == p.nodes,
        refinement_run(p, t, init, run),
        stable(p, t, run.last()),
    ensures
        run.last() == greatest_dual_simulation(p, t, init),
{
    let last = run.len() - 1;
    lemma_run_keeps_greatest(p, t, init, run, last);
    lemma_run_monotone(p, t, init, run, 0, last);
    lemma_fixpoint_is_greatest(p, t, init, run[last]);
}

/// The fixpoint does not depend on the order of the checks: two runs of
/// refinement steps from the same candidates that both end in a stable
/// relation end in the same relation.
pub proof fn lemma_fixpoint_order_independent(
    p: Digraph,
    t: Digraph,
    init: Relation,
    run1: Seq<Relation>,
    run2: Seq<Relation>,
)
    requires
        p.wf(),
        init.len() == p.nodes,
        refinement_run(p, t, init, run1),
        refinement_run(p, t, init, run2),
        stable(p, t, run1.last()),
        stable(p, t, run2.last()),
    ensures
        run1.last() == run2.last(),
{
    lemma_run_reaches_greatest(p, t, init, run1);
    lemma_run_reaches_greatest(p, t, init, run2);
}

/// A graph simulates itself: where every node is a candidate of itself by
/// label, every node is a candidate of itself in the greatest dual
/// simulation of the graph by itself.
pub proof fn lemma_self_simulation(g: Digraph, init: Relation)
    requires
        g.wf(),
        init.len() == g.nodes,
        forall|u: int| 0 <= u < g.nodes ==> (#[trigger] init[u]).contains(u),
    ensures
        forall|u: int|
            0 <= u < g.nodes ==> (#[trigger] greatest_dual_simulation(g, g, init)[u]).contains(u),
{
    let id = Seq::new(g.nodes, |u: int| set![u]);
    assert forall|u: int, v: int| 0 <= u < id.len() && #[trigger] id[u].contains(v) implies answered(
        g,
        g,
        id,
        u,
        v,
    ) by {
        assert(v == u);
        assert forall|u2: int| #[trigger] g.has_edge(u, u2) implies exists|v2: int| #[trigger]
            g.has_edge(v, v2) && id[u2].contains(v2) by {
            let i = choose|i: int| 0 <= i < g.edges.len() && g.edges[i] == (u, u2);
            assert(0 <= g.edges[i].1 < g.nodes);
            assert(g.has_edge(v, u2) && id[u2].contains(u2));
        }
        assert forall|u0: int| #[trigger] g.has_edge(u0, u) implies exists|v0: int| #[trigger]
            g.has_edge(v0, v) && id[u0].contains(v0) by {
            let i = choose|i: int| 0 <= i < g.edges.len() && g.edges[i] == (u0, u);
            assert(0 <= g.edges[i].0 < g.nodes);
            assert(g.has_edge(u0, v) && id[u0].contains(u0));
        }
    }
    assert(is_dual_simulation(g, g, init, id));
    lemma_greatest_contains(g, g, init, id);
    assert forall|u: int| 0 <= u < g.nodes implies (#[trigger] greatest_dual_simulation(
        g,
        g,
        init,
    )[u]).contains(u) by {
        assert(id[u].contains(u));
    }
}

/// Under exact label comparison every node of a graph is a candidate of
/// itself in the simulation of the graph by itself.
pub proof fn lemma_identity(g: GraphView)
    requires
        g.wf(),
    ensures
        forall|u: int| 0 <= u < g.labels.len() ==> (#[trigger] exact_simulation(g, g)[u]).contains(u),
{
    lemma_digraph_wf(g);
    let init = label_candidates(
        g.labels,
        g.labels,
        |a: LabelView, b: LabelView| same_attributes(a, b),
    );
    lemma_self_simulation(g.digraph(), init);
}

/// A pattern without nodes has the empty relation as its simulation by any
/// target under any label comparison, and that relation passes the verdict.
pub proof fn lemma_empty_pattern(
    pattern: GraphView,
    target: GraphView,
    accepts: spec_fn(LabelView, LabelView) -> bool,
)
    requires
        pattern.labels.len() == 0,
    ensures
        simulation_by(pattern, target, accepts) == Seq::<Set<int>>::empty(),
        total(simulation_by(pattern, target, accepts)),
{
    assert(simulation_by(pattern, target, accepts) =~= Seq::<Set<int>>::empty());
}

/// A pattern node without edges keeps every candidate that its label
/// allows, whatever else the two graphs hold.
pub proof fn lemma_isolated_keeps_candidates(p: Digraph, t: Digraph, init: Relation, u: int, v: int)
    requires
        init.len() == p.nodes,
        0 <= u < p.nodes,
        p.isolated(u),
        init[u].contains(v),
    ensures
        greatest_dual_simulation(p, t, init)[u].contains(v),
{
    let r = Seq::new(
        p.nodes,
        |a: int|
            if a == u {
                set![v]
            } else {
                Set::<int>::empty()
            },
    );
    assert forall|a: int, b: int| 0 <= a < r.len() && #[trigger] r[a].contains(b) implies answered(
        p,
        t,
        r,
        a,
        b,
    ) by {
        assert(a == u);
        assert forall|u2: int| !p.has_edge(u, u2) by {}
        assert forall|u0: int| !p.has_edge(u0, u) by {}
    }
    assert(is_dual_simulation(p, t, init, r));
    assert(r[u].contains(v));
}

/// Two nodes without edges whose labels accept each other are candidates of
/// each other in the simulation of a graph by itself, whatever else the
/// graph holds.
pub proof fn lemma_disconnected_mutual(
    g: GraphView,
    accepts: spec_fn(LabelView, LabelView) -> bool,
    a: int,
    b: int,
)
    requires
        0 <= a < g.labels.len(),
        0 <= b < g.labels.len(),
        g.digraph().isolated(a),
        g.digraph().isolated(b),
        accepts(g.labels[a], g.labels[b]),
        accepts(g.labels[b], g.labels[a]),
    ensures
        simulation_by(g, g, accepts)[a].contains(b),
        simulation_by(g, g, accepts)[b].contains(a),
{
    let init = label_candidates(g.labels, g.labels, accepts);
    lemma_isolated_keeps_candidates(g.digraph(), g.digraph(), init, a, b);
    lemma_isolated_keeps_candidates(g.digraph(), g.digraph(), init, b, a);
}

/// A node of the pattern and a node of the target, both without edges and
/// with labels that the comparison accepts, stay candidates in the
/// simulation of the pattern by the target.
pub proof fn lemma_disconnected_pair(
    pattern: GraphView,
    target: GraphView,
    accepts: spec_fn(LabelView, LabelView) -> bool,
    u: int,
    v: int,
)
    requires
        0 <= u < pattern.labels.len(),
        0 <= v < target.labels.len(),
        pattern.digraph().isolated(u),
        target.digraph().isolated(v),
        accepts(pattern.labels[u], target.labels[v]),
    ensures
        simulation_by(pattern, target, accepts)[u].contains(v),
{
    let init = label_candidates(pattern.labels, target.labels, accepts);
    lemma_isolated_keeps_candidates(pattern.digraph(), target.digraph(), init, u, v);
}

} // verus!
