//! The refinement engine: edge checks, refinement passes, and the fixpoint.

use vstd::prelude::*;
use crate::adjacency::{lemma_neighbours, neighbours, AdjacencyList};
use crate::graph::{lemma_digraph_wf, NetworkXGraph};
use crate::model::{
    answered, answers_backward, answers_forward, greatest_dual_simulation, keeps_simulations,
    lemma_fixpoint_is_greatest, lemma_keeps_transitive, lemma_remove_unanswered, stable, within,
    without, Digraph, Relation,
};
use crate::relation::{lemma_without_size, relation_size, Sim};

verus! {

/// The adjacency of a graph in both directions.
pub struct Neighbourhood {
    post: AdjacencyList,
    pre: AdjacencyList,
    shape: Ghost<Digraph>,
}

impl Neighbourhood {
    /// The graph whose adjacency this is.
    pub closed spec fn shape(&self) -> Digraph {
        self.shape@
    }

    /// Both directions are those of a well-formed graph.
    pub closed spec fn wf(&self) -> bool {
        &&& self.shape@.wf()
        &&& self.post.describes(self.shape@, true)
        &&& self.pre.describes(self.shape@, false)
    }

    /// Builds both directions from the edges of `graph`.
    pub fn of(graph: &NetworkXGraph) -> (r: Self)
        requires
            graph.wf(),
        ensures
            r.wf(),
            r.shape() == graph@.digraph(),
    {
        proof {
            graph.lemma_view_wf();
            lemma_digraph_wf(graph@);
        }
        Neighbourhood {
            post: graph.get_adj(),
            pre: graph.get_adj_inv(),
            shape: Ghost(graph@.digraph()),
        }
    }

    /// Number of nodes.
    pub fn node_count(&self) -> (n: usize)
        requires
            self.wf(),
        ensures
            n == self.shape().nodes,
    {
        self.post.len()
    }
}

/// Some node of `offered` is a candidate of pattern node `u`.
pub open spec fn offers(r: Relation, u: int, offered: Seq<usize>) -> bool {
    exists|j: int| 0 <= j < offered.len() && r[u].contains(#[trigger] offered[j] as int)
}

/// Every node of `wanted` has a candidate among `offered`.
pub open spec fn all_supported(r: Relation, wanted: Seq<usize>, offered: Seq<usize>) -> bool {
    forall|i: int| 0 <= i < wanted.len() ==> offers(r, #[trigger] wanted[i] as int, offered)
}

/// A list of neighbours holds nodes of its graph only.
proof fn lemma_neighbours_in_range(g: Digraph, list: Seq<usize>, a: int, forward: bool)
    requires
        g.wf(),
        list.map_values(|b: usize| b as int) == neighbours(g.edges, a, forward),
    ensures
        forall|i: int| 0 <= i < list.len() ==> (#[trigger] list[i]) < g.nodes,
{
    let ints = list.map_values(|b: usize| b as int);
    assert forall|i: int| 0 <= i < list.len() implies (#[trigger] list[i]) < g.nodes by {
        assert(ints[i] == list[i] as int);
        assert(ints.contains(list[i] as int));
        lemma_neighbours(g.edges, a, forward, list[i] as int);
        let e = if forward {
            (a, list[i] as int)
        } else {
            (list[i] as int, a)
        };
        let k = choose|k: int| 0 <= k < g.edges.len() && g.edges[k] == e;
        assert(0 <= g.edges[k].0 < g.nodes && 0 <= g.edges[k].1 < g.nodes);
    }
}

/// Support along neighbour lists is the edge check of the model.
proof fn lemma_support_is_answer(
    p: Digraph,
    t: Digraph,
    r: Relation,
    u: int,
    v: int,
    wanted: Seq<usize>,
    offered: Seq<usize>,
    forward: bool,
)
    requires
        wanted.map_values(|b: usize| b as int) == neighbours(p.edges, u, forward),
        offered.map_values(|b: usize| b as int) == neighbours(t.edges, v, forward),
    ensures
        all_supported(r, wanted, offered) == if forward {
            answers_forward(p, t, r, u, v)
        } else {
            answers_backward(p, t, r, u, v)
        },
{
    let w = wanted.map_values(|b: usize| b as int);
    let o = offered.map_values(|b: usize| b as int);
    if all_supported(r, wanted, offered) {
        assert forall|u2: int| #[trigger] w.contains(u2) implies exists|v2: int| #[trigger]
            o.contains(v2) && r[u2].contains(v2) by {
            let i = choose|i: int| 0 <= i < w.len() && w[i] == u2;
            assert(offers(r, wanted[i] as int, offered));
            let j = choose|j: int|
                0 <= j < offered.len() && r[u2].contains(#[trigger] offered[j] as int);
            let v2 = offered[j] as int;
            assert(o[j] == v2);
            assert(o.contains(v2));
        }
        if forward {
            assert forall|u2: int| #[trigger] p.has_edge(u, u2) implies exists|v2: int| #[trigger]
                t.has_edge(v, v2) && r[u2].contains(v2) by {
                lemma_neighbours(p.edges, u, forward, u2);
                assert(w.contains(u2));
                let v2 = choose|v2: int| #[trigger] o.contains(v2) && r[u2].contains(v2);
                lemma_neighbours(t.edges, v, forward, v2);
                assert(t.has_edge(v, v2));
            }
        } else {
            assert forall|u2: int| #[trigger] p.has_edge(u2, u) implies exists|v2: int| #[trigger]
                t.has_edge(v2, v) && r[u2].contains(v2) by {
                lemma_neighbours(p.edges, u, forward, u2);
                assert(w.contains(u2));
                let v2 = choose|v2: int| #[trigger] o.contains(v2) && r[u2].contains(v2);
                lemma_neighbours(t.edges, v, forward, v2);
                assert(t.has_edge(v2, v));
            }
        }
    }
    if (if forward {
        answers_forward(p, t, r, u, v)
    } else {
        answers_backward(p, t, r, u, v)
    }) {
        assert forall|i: int| 0 <= i < wanted.len() implies offers(
            r,
            #[trigger] wanted[i] as int,
            offered,
        ) by {
            let u2 = wanted[i] as int;
            assert(w[i] == u2);
            assert(w.contains(u2));
            lemma_neighbours(p.edges, u, forward, u2);
            let v2 = if forward {
                assert(p.has_edge(u, u2));
                choose|v2: int| #[trigger] t.has_edge(v, v2) && r[u2].contains(v2)
            } else {
                assert(p.has_edge(u2, u));
                choose|v2: int| #[trigger] t.has_edge(v2, v) && r[u2].contains(v2)
            };
            lemma_neighbours(t.edges, v, forward, v2);
            assert(o.contains(v2));
            let j = choose|j: int| 0 <= j < o.len() && o[j] == v2;
            assert(offered[j] as int == v2);
        }
    }
}

/// Whether every node of `wanted` has a candidate among `offered`.
fn supported(sim: &Sim, wanted: &Vec<usize>, offered: &Vec<usize>) -> (r: bool)
    requires
        forall|i: int| 0 <= i < wanted@.len() ==> (#[trigger] wanted@[i]) < sim@.len(),
    ensures
        r == all_supported(sim@, wanted@, offered@),
{
    let mut i: usize = 0;
    while i < wanted.len()
        invariant
            0 <= i <= wanted@.len(),
            forall|k: int| 0 <= k < wanted@.len() ==> (#[trigger] wanted@[k]) < sim@.len(),
            forall|k: int| 0 <= k < i ==> offers(sim@, #[trigger] wanted@[k] as int, offered@),
        decreases wanted@.len() - i,
    {
        let u2 = wanted[i];
        let mut found = false;
        let mut j: usize = 0;
        while j < offered.len() && !found
            invariant
                0 <= j <= offered@.len(),
                u2 < sim@.len(),
                found ==> offers(sim@, u2 as int, offered@),
                !found ==> forall|l: int|
                    0 <= l < j ==> !sim@[u2 as int].contains(#[trigger] offered@[l] as int),
            decreases offered@.len() - j,
        {
            if sim.contains(u2, offered[j]) {
                found = true;
            }
            j += 1;
        }
        if !found {
            assert(!offers(sim@, wanted@[i as int] as int, offered@));
            return false;
        }
        i += 1;
    }
    true
}

/// Whether the pair `(u, v)` passes both edge checks against `sim`.
fn pair_answered(p: &Neighbourhood, t: &Neighbourhood, sim: &Sim, u: usize, v: usize) -> (r: bool)
    requires
        p.wf(),
        t.wf(),
        sim@.len() == p.shape().nodes,
        u < p.shape().nodes,
        v < t.shape().nodes,
    ensures
        r == answered(p.shape(), t.shape(), sim@, u as int, v as int),
{
    let wanted_post = p.post.neighbours_of(u);
    let offered_post = t.post.neighbours_of(v);
    let wanted_pre = p.pre.neighbours_of(u);
    let offered_pre = t.pre.neighbours_of(v);
    proof {
        let pg = p.shape();
        let tg = t.shape();
        assert(p.post@[u as int] == wanted_post@);
        assert(t.post@[v as int] == offered_post@);
        assert(p.pre@[u as int] == wanted_pre@);
        assert(t.pre@[v as int] == offered_pre@);
        lemma_neighbours_in_range(pg, wanted_post@, u as int, true);
        lemma_neighbours_in_range(pg, wanted_pre@, u as int, false);
        lemma_support_is_answer(pg, tg, sim@, u as int, v as int, wanted_post@, offered_post@, true);
        lemma_support_is_answer(pg, tg, sim@, u as int, v as int, wanted_pre@, offered_pre@, false);
    }
    supported(sim, wanted_post, offered_post) && supported(sim, wanted_pre, offered_pre)
}

/// The relation that is left of `r` when the pairs from `(u, v)` on are tested
/// in turn, pattern node by pattern node and for each of them target node by
/// target node up to `width`: a pair that is in the relation and fails an
/// edge check against the relation as it then stands is taken out before the
/// next pair is tested.
pub open spec fn sweep_from(p: Digraph, t: Digraph, r: Relation, u: int, v: int, width: int) -> Relation
    decreases r.len() - u, width - v,
{
    if u < 0 || u >= r.len() || v < 0 {
        r
    } else if v >= width {
        sweep_from(p, t, r, u + 1, 0, width)
    } else {
        let next = if r[u].contains(v) && !answered(p, t, r, u, v) {
            without(r, u, v)
        } else {
            r
        };
        sweep_from(p, t, next, u, v + 1, width)
    }
}

/// The relation that one refinement pass leaves of `r`.
pub open spec fn pass_result(p: Digraph, t: Digraph, r: Relation, width: int) -> Relation {
    sweep_from(p, t, r, 0, 0, width)
}

/// One refinement pass: every pair of `sim` is tested once, in the order of
/// the pattern nodes and then of the target nodes, against the relation as it
/// stands at that moment, and taken out if it fails an edge check. Returns
/// whether a pair was taken out.
///
/// A pass only shrinks the relation and loses no stable relation inside it,
/// so what it leaves still contains the greatest dual simulation. A pass that
/// takes nothing out has found the relation stable.
pub fn refine_pass(p: &Neighbourhood, t: &Neighbourhood, sim: &mut Sim) -> (changed: bool)
    requires
        p.wf(),
        t.wf(),
        old(sim).wf(),
        old(sim)@.len() == p.shape().nodes,
        old(sim).targets() == t.shape().nodes,
    ensures
        final(sim).wf(),
        final(sim).targets() == old(sim).targets(),
        final(sim)@ == pass_result(p.shape(), t.shape(), old(sim)@, old(sim).targets() as int),
        within(final(sim)@, old(sim)@),
        keeps_simulations(p.shape(), t.shape(), old(sim)@, final(sim)@),
        changed == (final(sim)@ != old(sim)@),
        !changed ==> stable(p.shape(), t.shape(), final(sim)@),
        changed ==> relation_size(final(sim)@) < relation_size(old(sim)@),
{
    let ghost pg = p.shape();
    let ghost tg = t.shape();
    let ghost start = sim@;
    let n = sim.len();
    let w = sim.target_count();
    let mut changed = false;
    let mut u: usize = 0;
    while u < n
        invariant
            p.wf(),
            t.wf(),
            pg == p.shape(),
            tg == t.shape(),
            sim.wf(),
            n == pg.nodes,
            w == tg.nodes,
            sim@.len() == n,
            sim.targets() == w,
            0 <= u <= n,
            sweep_from(pg, tg, sim@, u as int, 0, w as int) == pass_result(pg, tg, start, w as int),
            within(sim@, start),
            keeps_simulations(pg, tg, start, sim@),
            !changed ==> sim@ == start,
            !changed ==> forall|a: int, b: int|
                0 <= a < u && #[trigger] sim@[a].contains(b) ==> answered(pg, tg, sim@, a, b),
            changed ==> relation_size(sim@) < relation_size(start),
        decreases n - u,
    {
        let mut v: usize = 0;
        while v < w
            invariant
                p.wf(),
                t.wf(),
                pg == p.shape(),
                tg == t.shape(),
                sim.wf(),
                n == pg.nodes,
                w == tg.nodes,
                sim@.len() == n,
                sim.targets() == w,
                0 <= u < n,
                0 <= v <= w,
                sweep_from(pg, tg, sim@, u as int, v as int, w as int) == pass_result(
                    pg,
                    tg,
                    start,
                    w as int,
                ),
                within(sim@, start),
                keeps_simulations(pg, tg, start, sim@),
                !changed ==> sim@ == start,
                !changed ==> forall|a: int, b: int|
                    0 <= a < u && #[trigger] sim@[a].contains(b) ==> answered(pg, tg, sim@, a, b),
                !changed ==> forall|b: int|
                    0 <= b < v && #[trigger] sim@[u as int].contains(b) ==> answered(
                        pg,
                        tg,
                        sim@,
                        u as int,
                        b,
                    ),
                changed ==> relation_size(sim@) < relation_size(start),
            decreases w - v,
        {
            if sim.contains(u, v) {
                if !pair_answered(p, t, sim, u, v) {
                    let ghost before = sim@;
                    proof {
                        sim.lemma_bounded();
                        lemma_remove_unanswered(pg, tg, before, u as int, v as int);
                        lemma_without_size(before, u as int, v as int);
                        lemma_keeps_transitive(
                            pg,
                            tg,
                            start,
                            before,
                            without(before, u as int, v as int),
                        );
                    }
                    sim.remove(u, v);
                    changed = true;
                }
            }
            v += 1;
        }
        proof {
            if !changed {
                sim.lemma_bounded();
            }
        }
        u += 1;
    }
    proof {
        if changed {
            if sim@ == start {
                assert(false);
            }
        }
    }
    changed
}

/// Refines `sim` to the fixpoint: passes are repeated until one takes
/// nothing out. What is left is the greatest dual simulation of the pattern
/// by the target among the candidates that `sim` held at the start.
pub fn refine(pattern: &NetworkXGraph, target: &NetworkXGraph, sim: &mut Sim)
    requires
        pattern.wf(),
        target.wf(),
        old(sim).wf(),
        old(sim)@.len() == pattern@.labels.len(),
        old(sim).targets() == target@.labels.len(),
    ensures
        final(sim).wf(),
        final(sim).targets() == old(sim).targets(),
        within(final(sim)@, old(sim)@),
        final(sim)@ == greatest_dual_simulation(pattern@.digraph(), target@.digraph(), old(sim)@),
{
    let p = Neighbourhood::of(pattern);
    let t = Neighbourhood::of(target);
    let ghost pg = p.shape();
    let ghost tg = t.shape();
    let ghost start = sim@;
    loop
        invariant
            p.wf(),
            t.wf(),
            pg == p.shape(),
            tg == t.shape(),
            sim.wf(),
            sim@.len() == pg.nodes,
            sim.targets() == tg.nodes,
            within(sim@, start),
            keeps_simulations(pg, tg, start, sim@),
        ensures
            stable(pg, tg, sim@),
        decreases relation_size(sim@),
    {
        let ghost before = sim@;
        let changed = refine_pass(&p, &t, sim);
        proof {
            lemma_keeps_transitive(pg, tg, start, before, sim@);
        }
        if !changed {
            break;
        }
    }
    proof {
        lemma_fixpoint_is_greatest(pg, tg, start, sim@);
    }
}

} // verus!
