//! The mathematics of dual simulation: graphs as edge lists, relations as
//! candidate sets, and the greatest relation closed under both edge checks.

use vstd::prelude::*;

verus! {

/// What a label stands for: attribute keys with their value tokens.
pub type LabelView = Map<Seq<char>, u64>;

/// A relation from pattern nodes to target nodes: entry `u` is the set of
/// candidates of pattern node `u`.
pub type Relation = Seq<Set<int>>;

/// The shape of a directed graph: nodes `0 .. nodes` and the endpoints of its
/// edges. Parallel edges and self-loops are allowed.
pub struct Digraph {
    pub nodes: nat,
    pub edges: Seq<(int, int)>,
}

impl Digraph {
    /// Every edge joins two nodes of the graph.
    pub open spec fn wf(self) -> bool {
        forall|i: int|
            0 <= i < self.edges.len() ==> 0 <= (#[trigger] self.edges[i]).0 < self.nodes && 0
                <= self.edges[i].1 < self.nodes
    }

    /// Some edge leads from `a` to `b`.
    pub open spec fn has_edge(self, a: int, b: int) -> bool {
        self.edges.contains((a, b))
    }

    /// No edge starts or ends at `a`.
    pub open spec fn isolated(self, a: int) -> bool {
        &&& forall|b: int| !(#[trigger] self.has_edge(a, b))
        &&& forall|b: int| !(#[trigger] self.has_edge(b, a))
    }
}

/// Every successor of `u` in the pattern is matched by a successor of `v` in
/// the target that is a candidate of it.
pub open spec fn answers_forward(p: Digraph, t: Digraph, r: Relation, u: int, v: int) -> bool {
    forall|u2: int| #[trigger]
        p.has_edge(u, u2) ==> exists|v2: int| #[trigger] t.has_edge(v, v2) && r[u2].contains(v2)
}

/// Every predecessor of `u` in the pattern is matched by a predecessor of `v`
/// in the target that is a candidate of it.
pub open spec fn answers_backward(p: Digraph, t: Digraph, r: Relation, u: int, v: int) -> bool {
    forall|u0: int| #[trigger]
        p.has_edge(u0, u) ==> exists|v0: int| #[trigger] t.has_edge(v0, v) && r[u0].contains(v0)
}

/// The pair `(u, v)` passes both edge checks against `r`.
pub open spec fn answered(p: Digraph, t: Digraph, r: Relation, u: int, v: int) -> bool {
    answers_forward(p, t, r, u, v) && answers_backward(p, t, r, u, v)
}

/// `r` lies inside `bound`, node by node.
pub open spec fn within(r: Relation, bound: Relation) -> bool {
    r.len() == bound.len() && forall|u: int, v: int|
        0 <= u < r.len() && #[trigger] r[u].contains(v) ==> bound[u].contains(v)
}

/// No pair of `r` fails an edge check: refinement has nothing left to remove.
pub open spec fn stable(p: Digraph, t: Digraph, r: Relation) -> bool {
    forall|u: int, v: int|
        0 <= u < r.len() && #[trigger] r[u].contains(v) ==> answered(p, t, r, u, v)
}

/// `r` is a dual simulation of `p` by `t` among the candidates `init`.
pub open spec fn is_dual_simulation(p: Digraph, t: Digraph, init: Relation, r: Relation) -> bool {
    r.len() == p.nodes && within(r, init) && stable(p, t, r)
}

/// The union of all dual simulations among the candidates `init`.
pub open spec fn greatest_dual_simulation(p: Digraph, t: Digraph, init: Relation) -> Relation {
    Seq::new(
        p.nodes,
        |u: int|
            Set::new(
                |v: int|
                    exists|r: Relation|
                        is_dual_simulation(p, t, init, r) && (#[trigger] r[u]).contains(v),
            ),
    )
}

/// The candidate set `s` holds at least one node.
pub open spec fn inhabited(s: Set<int>) -> bool {
    exists|v: int| s.contains(v)
}

/// Every pattern node has at least one candidate.
pub open spec fn total(r: Relation) -> bool {
    forall|u: int| 0 <= u < r.len() ==> inhabited(#[trigger] r[u])
}

/// The candidates that labels alone allow: target node `v` is a candidate of
/// pattern node `u` when `accepts` holds of their labels.
pub open spec fn label_candidates(
    pattern: Seq<LabelView>,
    target: Seq<LabelView>,
    accepts: spec_fn(LabelView, LabelView) -> bool,
) -> Relation {
    Seq::new(
        pattern.len(),
        |u: int| Set::new(|v: int| 0 <= v < target.len() && accepts(pattern[u], target[v])),
    )
}

/// An edge check that holds against a relation holds against every larger one.
pub proof fn lemma_answered_monotone(
    p: Digraph,
    t: Digraph,
    small: Relation,
    large: Relation,
    u: int,
    v: int,
)
    requires
        p.wf(),
        small.len() == p.nodes,
        within(small, large),
        answered(p, t, small, u, v),
    ensures
        answered(p, t, large, u, v),
{
    assert forall|u2: int| #[trigger] p.has_edge(u, u2) implies exists|v2: int| #[trigger]
        t.has_edge(v, v2) && large[u2].contains(v2) by {
        let v2 = choose|v2: int| #[trigger] t.has_edge(v, v2) && small[u2].contains(v2);
        let i = choose|i: int| 0 <= i < p.edges.len() && p.edges[i] == (u, u2);
        assert(0 <= p.edges[i].1 < p.nodes);
        assert(t.has_edge(v, v2) && large[u2].contains(v2));
    }
    assert forall|u0: int| #[trigger] p.has_edge(u0, u) implies exists|v0: int| #[trigger]
        t.has_edge(v0, v) && large[u0].contains(v0) by {
        let v0 = choose|v0: int| #[trigger] t.has_edge(v0, v) && small[u0].contains(v0);
        let i = choose|i: int| 0 <= i < p.edges.len() && p.edges[i] == (u0, u);
        assert(0 <= p.edges[i].0 < p.nodes);
        assert(t.has_edge(v0, v) && large[u0].contains(v0));
    }
}

/// Every dual simulation lies inside the greatest one.
pub proof fn lemma_greatest_contains(p: Digraph, t: Digraph, init: Relation, r: Relation)
    requires
        is_dual_simulation(p, t, init, r),
    ensures
        within(r, greatest_dual_simulation(p, t, init)),
{
    let g = greatest_dual_simulation(p, t, init);
    assert forall|u: int, v: int| 0 <= u < r.len() && #[trigger] r[u].contains(v) implies g[u].contains(
        v,
    ) by {
        assert(is_dual_simulation(p, t, init, r) && r[u].contains(v));
    }
}

/// The greatest dual simulation is itself a dual simulation.
pub proof fn lemma_greatest_is_dual_simulation(p: Digraph, t: Digraph, init: Relation)
    requires
        p.wf(),
        init.len() == p.nodes,
    ensures
        is_dual_simulation(p, t, init, greatest_dual_simulation(p, t, init)),
{
    let g = greatest_dual_simulation(p, t, init);
    assert forall|u: int, v: int| 0 <= u < g.len() && #[trigger] g[u].contains(v) implies init[u].contains(
        v,
    ) && answered(p, t, g, u, v) by {
        let r = choose|r: Relation|
            is_dual_simulation(p, t, init, r) && (#[trigger] r[u]).contains(v);
        lemma_greatest_contains(p, t, init, r);
        assert(answered(p, t, r, u, v));
        lemma_answered_monotone(p, t, r, g, u, v);
    }
}

/// A dual simulation that contains every dual simulation is the greatest one.
pub proof fn lemma_greatest_unique(p: Digraph, t: Digraph, init: Relation, r: Relation)
    requires
        p.wf(),
        is_dual_simulation(p, t, init, r),
        forall|s: Relation| is_dual_simulation(p, t, init, s) ==> within(s, r),
    ensures
        r == greatest_dual_simulation(p, t, init),
{
    let g = greatest_dual_simulation(p, t, init);
    lemma_greatest_contains(p, t, init, r);
    lemma_greatest_is_dual_simulation(p, t, init);
    assert(within(g, r));
    assert forall|u: int| 0 <= u < r.len() implies r[u] =~= g[u] by {
        assert forall|v: int| r[u].contains(v) <==> g[u].contains(v) by {}
    }
    assert(r =~= g);
}

/// Going from `a` to `b` loses no stable relation: every stable relation
/// inside `a` is inside `b`.
pub open spec fn keeps_simulations(p: Digraph, t: Digraph, a: Relation, b: Relation) -> bool {
    forall|s: Relation|
        s.len() == p.nodes && stable(p, t, s) && #[trigger] within(s, a) ==> within(s, b)
}

/// `r` without the pair `(u, v)`.
pub open spec fn without(r: Relation, u: int, v: int) -> Relation {
    r.update(u, r[u].remove(v))
}

/// One refinement step: a pair of `before` that fails an edge check against
/// `before` is taken out.
pub open spec fn refinement_step(p: Digraph, t: Digraph, before: Relation, after: Relation) -> bool {
    exists|u: int, v: int|
        0 <= u < before.len() && #[trigger] before[u].contains(v) && !answered(p, t, before, u, v)
            && after == without(before, u, v)
}

/// A run of refinement steps that starts at `init`. Which failing pair each
/// step takes out is left open.
pub open spec fn refinement_run(p: Digraph, t: Digraph, init: Relation, run: Seq<Relation>) -> bool {
    &&& run.len() > 0
    &&& run[0] == init
    &&& forall|i: int|
        0 <= i < run.len() - 1 ==> refinement_step(p, t, #[trigger] run[i], run[i + 1])
}

/// Taking out a pair that fails an edge check loses no stable relation.
pub proof fn lemma_remove_unanswered(p: Digraph, t: Digraph, r: Relation, u: int, v: int)
    requires
        p.wf(),
        r.len() == p.nodes,
        0 <= u < r.len(),
        !answered(p, t, r, u, v),
    ensures
        keeps_simulations(p, t, r, without(r, u, v)),
        within(without(r, u, v), r),
{
    let w = without(r, u, v);
    assert forall|s: Relation|
        s.len() == p.nodes && stable(p, t, s) && #[trigger] within(s, r) implies within(s, w) by {
        if s[u].contains(v) {
            assert(answered(p, t, s, u, v));
            lemma_answered_monotone(p, t, s, r, u, v);
        }
        assert forall|a: int, b: int| 0 <= a < s.len() && #[trigger] s[a].contains(b) implies w[a].contains(
            b,
        ) by {
            assert(r[a].contains(b));
        }
    }
}

/// Losing no stable relation carries over two stretches of refinement.
pub proof fn lemma_keeps_transitive(p: Digraph, t: Digraph, a: Relation, b: Relation, c: Relation)
    requires
        keeps_simulations(p, t, a, b),
        keeps_simulations(p, t, b, c),
    ensures
        keeps_simulations(p, t, a, c),
{
}

/// A stable relation that refinement reached from `init` without losing a
/// stable relation is the greatest dual simulation among `init`.
pub proof fn lemma_fixpoint_is_greatest(p: Digraph, t: Digraph, init: Relation, r: Relation)
    requires
        p.wf(),
        r.len() == p.nodes,
        within(r, init),
        stable(p, t, r),
        keeps_simulations(p, t, init, r),
    ensures
        r == greatest_dual_simulation(p, t, init),
{
    assert forall|s: Relation| is_dual_simulation(p, t, init, s) implies within(s, r) by {
        assert(within(s, init));
    }
    lemma_greatest_unique(p, t, init, r);
}

} // verus!
