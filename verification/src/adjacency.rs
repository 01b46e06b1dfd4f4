//! Forward and backward adjacency of a graph, indexed by node.

use vstd::prelude::*;
use crate::graph::NetworkXGraph;
use crate::model::Digraph;

verus! {

/// The far ends of the edges of `edges` that have `a` at their near end, in
/// edge order. The near end is the source when `forward`, else the target.
pub open spec fn neighbours(edges: Seq<(int, int)>, a: int, forward: bool) -> Seq<int>
    decreases edges.len(),
{
    if edges.len() == 0 {
        Seq::empty()
    } else {
        let rest = neighbours(edges.drop_last(), a, forward);
        let e = edges.last();
        if forward && e.0 == a {
            rest.push(e.1)
        } else if !forward && e.1 == a {
            rest.push(e.0)
        } else {
            rest
        }
    }
}

/// A node is a forward neighbour of `a` exactly when an edge leads from `a`
/// to it, and a backward neighbour exactly when an edge leads from it to `a`.
pub proof fn lemma_neighbours(edges: Seq<(int, int)>, a: int, forward: bool, b: int)
    ensures
        neighbours(edges, a, forward).contains(b) <==> edges.contains(
            if forward {
                (a, b)
            } else {
                (b, a)
            },
        ),
    decreases edges.len(),
{
    let wanted = if forward {
        (a, b)
    } else {
        (b, a)
    };
    if edges.len() > 0 {
        let front = edges.drop_last();
        let rest = neighbours(front, a, forward);
        let e = edges.last();
        lemma_neighbours(front, a, forward, b);
        let all = neighbours(edges, a, forward);
        if all.contains(b) {
            let i = choose|i: int| 0 <= i < all.len() && all[i] == b;
            if i < rest.len() {
                assert(rest[i] == b);
                let j = choose|j: int| 0 <= j < front.len() && front[j] == wanted;
                assert(edges[j] == wanted);
            } else {
                assert(edges[edges.len() - 1] == wanted);
            }
        }
        if edges.contains(wanted) {
            let j = choose|j: int| 0 <= j < edges.len() && edges[j] == wanted;
            if j < front.len() {
                assert(front[j] == wanted);
                let i = choose|i: int| 0 <= i < rest.len() && rest[i] == b;
                assert(all[i] == b);
            } else {
                assert(all[all.len() - 1] == b);
            }
        }
    }
}

/// For every node of a graph the list of its neighbours in one direction.
#[derive(Debug)]
pub struct AdjacencyList {
    lists: Vec<Vec<usize>>,
}

impl AdjacencyList {
    /// The neighbour lists by node.
    pub closed spec fn view(&self) -> Seq<Seq<usize>> {
        Seq::new(self.lists@.len(), |a: int| self.lists@[a]@)
    }

    /// The lists are those of the graph `g` in the given direction.
    pub open spec fn describes(&self, g: Digraph, forward: bool) -> bool {
        &&& self@.len() == g.nodes
        &&& forall|a: int|
            0 <= a < g.nodes ==> (#[trigger] self@[a]).map_values(|b: usize| b as int) == neighbours(
                g.edges,
                a,
                forward,
            )
    }

    /// Number of nodes.
    pub fn len(&self) -> (n: usize)
        ensures
            n == self@.len(),
    {
        self.lists.len()
    }

    /// The neighbours of `node`.
    pub fn neighbours_of(&self, node: usize) -> (r: &Vec<usize>)
        requires
            node < self@.len(),
        ensures
            r@ == self@[node as int],
    {
        &self.lists[node]
    }

    fn build(graph: &NetworkXGraph, forward: bool) -> (r: Self)
        requires
            graph.wf(),
        ensures
            r.describes(graph@.digraph(), forward),
    {
        let n = graph.node_count();
        let m = graph.edge_count();
        let ghost g = graph@.digraph();
        let mut lists: Vec<Vec<usize>> = Vec::new();
        let mut a: usize = 0;
        while a < n
            invariant
                0 <= a <= n,
                lists@.len() == a,
                forall|i: int| 0 <= i < a ==> (#[trigger] lists@[i])@.len() == 0,
            decreases n - a,
        {
            lists.push(Vec::new());
            a += 1;
        }
        proof {
            assert(g.edges.take(0) =~= Seq::<(int, int)>::empty());
            assert forall|i: int| 0 <= i < n implies (#[trigger] lists@[i])@.map_values(
                |b: usize| b as int,
            ) == neighbours(g.edges.take(0), i, forward) by {
                assert(lists@[i]@.map_values(|b: usize| b as int) =~= Seq::<int>::empty());
            }
        }
        let mut i: usize = 0;
        while i < m
            invariant
                graph.wf(),
                g == graph@.digraph(),
                n == g.nodes,
                m == g.edges.len(),
                0 <= i <= m,
                lists@.len() == n,
                forall|a: int|
                    0 <= a < n ==> (#[trigger] lists@[a])@.map_values(|b: usize| b as int)
                        == neighbours(g.edges.take(i as int), a, forward),
            decreases m - i,
        {
            let (s, t) = graph.endpoints(i);
            let (near, far) = if forward {
                (s, t)
            } else {
                (t, s)
            };
            let ghost before = lists@;
            let mut row: Vec<usize> = Vec::new();
            lists.set_and_swap(near, &mut row);
            row.push(far);
            lists.set_and_swap(near, &mut row);
            proof {
                let upto = g.edges.take(i as int + 1);
                assert(upto.drop_last() =~= g.edges.take(i as int));
                assert(upto.last() == (s as int, t as int));
                assert forall|a: int| 0 <= a < n implies (#[trigger] lists@[a])@.map_values(
                    |b: usize| b as int,
                ) == neighbours(upto, a, forward) by {
                    if a == near {
                        assert(lists@[a]@ =~= before[a]@.push(far));
                        assert(lists@[a]@.map_values(|b: usize| b as int) =~= before[a]@.map_values(
                            |b: usize| b as int,
                        ).push(far as int));
                    } else {
                        assert(lists@[a] == before[a]);
                    }
                }
            }
            i += 1;
        }
        proof {
            assert(g.edges.take(m as int) =~= g.edges);
        }
        let r = AdjacencyList { lists };
        proof {
            assert forall|a: int| 0 <= a < g.nodes implies (#[trigger] r@[a]).map_values(
                |b: usize| b as int,
            ) == neighbours(g.edges, a, forward) by {
                assert(r@[a] == lists@[a]@);
            }
        }
        r
    }
}

impl NetworkXGraph {
    /// For every node the targets of the edges that start at it, in edge
    /// order.
    pub fn get_adj(&self) -> (r: AdjacencyList)
        requires
            self.wf(),
        ensures
            r.describes(self@.digraph(), true),
    {
        AdjacencyList::build(self, true)
    }

    /// For every node the sources of the edges that end at it, in edge
    /// order.
    pub fn get_adj_inv(&self) -> (r: AdjacencyList)
        requires
            self.wf(),
        ensures
            r.describes(self@.digraph(), false),
    {
        AdjacencyList::build(self, false)
    }
}

} // verus!
