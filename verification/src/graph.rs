//! Directed attributed graphs, built node by node and edge by edge.

use vstd::prelude::*;
use crate::keyed::KeyedList;
use crate::label::{key_coverage, native_same_label_fn, Label};
use crate::model::{Digraph, LabelView};

verus! {

/// A node: its index in the graph and its label.
#[derive(Debug)]
pub struct Node {
    id: usize,
    attributes: Label,
}

/// An edge: the indices of its two ends and its label.
#[derive(Debug)]
pub struct Edge {
    source: usize,
    target: usize,
    attributes: Label,
}

/// A directed graph with labelled nodes and edges. Nodes are numbered from 0
/// in the order in which they were added, and callers refer to them by the
/// identifiers they chose.
#[derive(Debug)]
pub struct NetworkXGraph {
    nodes: Vec<Node>,
    edges: Vec<Edge>,
    node_indices: KeyedList<usize>,
}

/// Why an edge could not be added.
#[derive(Debug, Clone, Copy, PartialEq, Eq)]
pub enum GraphError {
    /// No node was added under the identifier given for the source.
    UnknownSource,
    /// The source is known; no node was added under the identifier given for
    /// the target.
    UnknownTarget,
}

/// An edge as the contracts see it.
pub struct EdgeView {
    pub source: int,
    pub target: int,
    pub label: LabelView,
}

/// A graph as the contracts see it: the node labels by index, the edges in
/// insertion order, and the index that each identifier stands for.
pub struct GraphView {
    pub labels: Seq<LabelView>,
    pub edges: Seq<EdgeView>,
    pub ids: Map<Seq<char>, int>,
}

impl GraphView {
    /// Edges and identifiers refer to nodes of the graph.
    pub open spec fn wf(self) -> bool {
        &&& forall|i: int|
            0 <= i < self.edges.len() ==> 0 <= (#[trigger] self.edges[i]).source < self.labels.len()
                && 0 <= self.edges[i].target < self.labels.len()
        &&& forall|k: Seq<char>|
            self.ids.contains_key(k) ==> 0 <= #[trigger] self.ids[k] < self.labels.len()
    }

    /// The graph without its labels and identifiers.
    pub open spec fn digraph(self) -> Digraph {
        Digraph {
            nodes: self.labels.len(),
            edges: Seq::new(self.edges.len(), |i: int| (self.edges[i].source, self.edges[i].target)),
        }
    }
}

/// A well-formed graph has a well-formed shape.
pub proof fn lemma_digraph_wf(g: GraphView)
    requires
        g.wf(),
    ensures
        g.digraph().wf(),
{
    let d = g.digraph();
    assert forall|i: int| 0 <= i < d.edges.len() implies 0 <= (#[trigger] d.edges[i]).0 < d.nodes
        && 0 <= d.edges[i].1 < d.nodes by {
        assert(0 <= g.edges[i].source < g.labels.len());
    }
}

impl Node {
    /// The node's index in its graph.
    pub closed spec fn index(&self) -> int {
        self.id as int
    }

    /// The node's label.
    pub closed spec fn label(&self) -> Label {
        self.attributes
    }

    /// The node's index in its graph.
    pub fn id(&self) -> (r: usize)
        ensures
            r == self.index(),
    {
        self.id
    }

    /// The node's label.
    pub fn attributes(&self) -> (r: &Label)
        ensures
            *r == self.label(),
    {
        &self.attributes
    }
}

impl Edge {
    /// What the edge stands for.
    pub closed spec fn view(&self) -> EdgeView {
        EdgeView { source: self.source as int, target: self.target as int, label: self.attributes@ }
    }

    /// The edge's label.
    pub closed spec fn label(&self) -> Label {
        self.attributes
    }

    /// Index of the node the edge starts at.
    pub fn source(&self) -> (r: usize)
        ensures
            r == self@.source,
    {
        self.source
    }

    /// Index of the node the edge ends at.
    pub fn target(&self) -> (r: usize)
        ensures
            r == self@.target,
    {
        self.target
    }

    /// The edge's label.
    pub fn attributes(&self) -> (r: &Label)
        ensures
            *r == self.label(),
            r@ == self@.label,
    {
        &self.attributes
    }
}

impl NetworkXGraph {
    /// The nodes in the order of their indices.
    pub closed spec fn node_seq(&self) -> Seq<Node> {
        self.nodes@
    }

    /// The edges in insertion order.
    pub closed spec fn edge_seq(&self) -> Seq<Edge> {
        self.edges@
    }

    /// What the graph stands for.
    pub closed spec fn view(&self) -> GraphView {
        GraphView {
            labels: Seq::new(self.nodes@.len(), |i: int| self.nodes@[i].attributes@),
            edges: Seq::new(self.edges@.len(), |i: int| self.edges@[i]@),
            ids: Map::new(
                |k: Seq<char>| self.node_indices@.contains_key(k),
                |k: Seq<char>| self.node_indices@[k] as int,
            ),
        }
    }

    /// Each node carries its own index, and edges and identifiers refer to
    /// nodes of the graph.
    pub closed spec fn wf(&self) -> bool {
        &&& self@.wf()
        &&& forall|i: int| 0 <= i < self.nodes@.len() ==> (#[trigger] self.nodes@[i]).id == i
    }

    /// A well-formed graph stands for a well-formed view.
    pub proof fn lemma_view_wf(&self)
        requires
            self.wf(),
        ensures
            self@.wf(),
    {
    }

    /// The view lists the labels of the nodes and the edges in order.
    pub proof fn lemma_nodes(&self)
        ensures
            self@.labels.len() == self.node_seq().len(),
            forall|i: int|
                0 <= i < self.node_seq().len() ==> self@.labels[i] == (#[trigger] self.node_seq()[i]).label()@,
            self@.edges.len() == self.edge_seq().len(),
            forall|i: int|
                0 <= i < self.edge_seq().len() ==> self@.edges[i] == (#[trigger] self.edge_seq()[i])@,
    {
    }

    /// The label of node `i`.
    pub fn node_label(&self, i: usize) -> (r: &Label)
        requires
            i < self.node_seq().len(),
        ensures
            *r == self.node_seq()[i as int].label(),
            r@ == self@.labels[i as int],
    {
        &self.nodes[i].attributes
    }

    /// A graph without nodes.
    pub fn new() -> (g: Self)
        ensures
            g.wf(),
            g@.labels.len() == 0,
            g@.edges.len() == 0,
            g@.ids == Map::<Seq<char>, int>::empty(),
    {
        let g = NetworkXGraph { nodes: Vec::new(), edges: Vec::new(), node_indices: KeyedList::new() };
        assert(g@.ids =~= Map::<Seq<char>, int>::empty());
        g
    }

    /// Number of nodes.
    pub fn node_count(&self) -> (n: usize)
        ensures
            n == self@.labels.len(),
            n == self.node_seq().len(),
    {
        self.nodes.len()
    }

    /// Number of edges.
    pub fn edge_count(&self) -> (n: usize)
        ensures
            n == self@.edges.len(),
            n == self.edge_seq().len(),
    {
        self.edges.len()
    }

    /// The indices of the two ends of edge number `i`.
    pub fn endpoints(&self, i: usize) -> (r: (usize, usize))
        requires
            self.wf(),
            i < self@.edges.len(),
        ensures
            r.0 == self@.edges[i as int].source,
            r.1 == self@.edges[i as int].target,
            r.0 < self@.labels.len(),
            r.1 < self@.labels.len(),
    {
        let e = &self.edges[i];
        (e.source, e.target)
    }

    /// Adds a node under the identifier `id` and returns its index, the
    /// number of nodes added before it. From now on `id` stands for this
    /// node, also where it stood for an earlier one.
    pub fn add_node(&mut self, id: String, attributes: Label) -> (index: usize)
        requires
            old(self).wf(),
        ensures
            final(self).wf(),
            index == old(self)@.labels.len(),
            final(self)@.labels == old(self)@.labels.push(attributes@),
            final(self)@.edges == old(self)@.edges,
            final(self)@.ids == old(self)@.ids.insert(id@, index as int),
    {
        let index = self.nodes.len();
        self.node_indices.insert(id, index);
        self.nodes.push(Node { id: index, attributes });
        proof {
            assert(final(self)@.labels =~= old(self)@.labels.push(attributes@));
            assert(final(self)@.edges =~= old(self)@.edges);
            assert(final(self)@.ids =~= old(self)@.ids.insert(id@, index as int));
            assert forall|i: int| 0 <= i < self@.edges.len() implies 0 <= (
            #[trigger] self@.edges[i]).source < self@.labels.len() && 0 <= self@.edges[i].target
                < self@.labels.len() by {
                assert(self@.edges[i] == old(self)@.edges[i]);
            }
            assert forall|k: Seq<char>| self@.ids.contains_key(k) implies 0 <= #[trigger] self@.ids[k]
                < self@.labels.len() by {
                if k != id@ {
                    assert(old(self)@.ids.contains_key(k));
                    assert(self@.ids[k] == old(self)@.ids[k]);
                }
            }
        }
        index
    }

    /// Adds an edge between the nodes that `source` and `target` stand for.
    /// An identifier under which no node was added is refused and the graph
    /// stays as it was.
    pub fn add_edge(&mut self, source: String, target: String, attributes: Label) -> (r: Result<
        (),
        GraphError,
    >)
        requires
            old(self).wf(),
        ensures
            final(self).wf(),
            final(self)@.labels == old(self)@.labels,
            final(self)@.ids == old(self)@.ids,
            match r {
                Ok(()) => {
                    &&& old(self)@.ids.contains_key(source@)
                    &&& old(self)@.ids.contains_key(target@)
                    &&& final(self)@.edges == old(self)@.edges.push(
                        EdgeView {
                            source: old(self)@.ids[source@],
                            target: old(self)@.ids[target@],
                            label: attributes@,
                        },
                    )
                },
                Err(GraphError::UnknownSource) => {
                    &&& !old(self)@.ids.contains_key(source@)
                    &&& final(self)@.edges == old(self)@.edges
                },
                Err(GraphError::UnknownTarget) => {
                    &&& old(self)@.ids.contains_key(source@)
                    &&& !old(self)@.ids.contains_key(target@)
                    &&& final(self)@.edges == old(self)@.edges
                },
            },
    {
        let s = match self.node_indices.get(&source) {
            Some(i) => *i,
            None => {
                return Err(GraphError::UnknownSource);
            },
        };
        let t = match self.node_indices.get(&target) {
            Some(i) => *i,
            None => {
                return Err(GraphError::UnknownTarget);
            },
        };
        proof {
            assert(self@.ids.contains_key(source@) && self@.ids[source@] == s);
            assert(self@.ids.contains_key(target@) && self@.ids[target@] == t);
        }
        self.edges.push(Edge { source: s, target: t, attributes });
        proof {
            let e = EdgeView { source: s as int, target: t as int, label: attributes@ };
            assert(final(self)@.edges =~= old(self)@.edges.push(e));
            assert(final(self)@.labels =~= old(self)@.labels);
            assert(final(self)@.ids =~= old(self)@.ids);
            assert forall|i: int| 0 <= i < self@.edges.len() implies 0 <= (
            #[trigger] self@.edges[i]).source < self@.labels.len() && 0 <= self@.edges[i].target
                < self@.labels.len() by {
                if i < old(self)@.edges.len() {
                    assert(self@.edges[i] == old(self)@.edges[i]);
                }
            }
        }
        Ok(())
    }
}

/// Index of the first edge of `edges` that leads from `source` to `target`,
/// or the length of `edges` when none does.
pub open spec fn first_edge(edges: Seq<EdgeView>, source: int, target: int) -> int
    decreases edges.len(),
{
    if edges.len() == 0 {
        0
    } else if edges[0].source == source && edges[0].target == target {
        0
    } else {
        1 + first_edge(edges.skip(1), source, target)
    }
}

/// `first_edge` is the least index of an edge from `source` to `target`.
pub proof fn lemma_first_edge(edges: Seq<EdgeView>, source: int, target: int)
    ensures
        0 <= first_edge(edges, source, target) <= edges.len(),
        first_edge(edges, source, target) < edges.len() ==> {
            let e = edges[first_edge(edges, source, target)];
            e.source == source && e.target == target
        },
        forall|i: int|
            0 <= i < first_edge(edges, source, target) ==> !((#[trigger] edges[i]).source == source
                && edges[i].target == target),
    decreases edges.len(),
{
    if edges.len() != 0 && !(edges[0].source == source && edges[0].target == target) {
        let rest = edges.skip(1);
        lemma_first_edge(rest, source, target);
        let f = first_edge(rest, source, target);
        assert forall|i: int| 0 <= i < f + 1 implies !((#[trigger] edges[i]).source == source
            && edges[i].target == target) by {
            if i > 0 {
                assert(rest[i - 1] == edges[i]);
            }
        }
    }
}

impl PartialEq for Node {
    /// Two nodes are equal when they have the same index and equal labels.
    fn eq(&self, other: &Self) -> (r: bool) {
        self.id == other.id && self.attributes == other.attributes
    }
}

impl vstd::std_specs::cmp::PartialEqSpecImpl for Node {
    open spec fn obeys_eq_spec() -> bool {
        true
    }

    open spec fn eq_spec(&self, other: &Self) -> bool {
        self.index() == other.index() && self.label()@ == other.label()@
    }
}

impl PartialEq for Edge {
    /// Two edges are equal when they join the same nodes and have equal
    /// labels.
    fn eq(&self, other: &Self) -> (r: bool) {
        self.source == other.source && self.target == other.target && self.attributes
            == other.attributes
    }
}

impl vstd::std_specs::cmp::PartialEqSpecImpl for Edge {
    open spec fn obeys_eq_spec() -> bool {
        true
    }

    open spec fn eq_spec(&self, other: &Self) -> bool {
        self@ == other@
    }
}

impl Clone for Node {
    /// A copy with the same index and label.
    fn clone(&self) -> (r: Self)
        ensures
            r.index() == self.index(),
            r.label()@ == self.label()@,
    {
        Node { id: self.id, attributes: self.attributes.clone() }
    }
}

impl Clone for Edge {
    /// A copy with the same ends and label.
    fn clone(&self) -> (r: Self)
        ensures
            r@ == self@,
    {
        Edge { source: self.source, target: self.target, attributes: self.attributes.clone() }
    }
}

impl Clone for NetworkXGraph {
    /// A copy that stands for the same graph.
    fn clone(&self) -> (r: Self)
        ensures
            r@ == self@,
            r.wf() == self.wf(),
    {
        let n = self.nodes.len();
        let mut nodes: Vec<Node> = Vec::new();
        let mut i: usize = 0;
        while i < n
            invariant
                n == self.nodes@.len(),
                0 <= i <= n,
                nodes@.len() == i,
                forall|j: int|
                    0 <= j < i ==> (#[trigger] nodes@[j]).id == self.nodes@[j].id
                        && nodes@[j].attributes@ == self.nodes@[j].attributes@,
            decreases n - i,
        {
            nodes.push(self.nodes[i].clone());
            i += 1;
        }
        let m = self.edges.len();
        let mut edges: Vec<Edge> = Vec::new();
        let mut k: usize = 0;
        while k < m
            invariant
                m == self.edges@.len(),
                0 <= k <= m,
                edges@.len() == k,
                nodes@.len() == self.nodes@.len(),
                forall|j: int|
                    0 <= j < nodes@.len() ==> (#[trigger] nodes@[j]).id == self.nodes@[j].id
                        && nodes@[j].attributes@ == self.nodes@[j].attributes@,
                forall|j: int| 0 <= j < k ==> (#[trigger] edges@[j])@ == self.edges@[j]@,
            decreases m - k,
        {
            edges.push(self.edges[k].clone());
            k += 1;
        }
        let r = NetworkXGraph { nodes, edges, node_indices: self.node_indices.clone() };
        proof {
            assert(r@.labels =~= self@.labels);
            assert(r@.edges =~= self@.edges);
            assert(r@.ids =~= self@.ids);
            if self.wf() {
                assert forall|i: int| 0 <= i < r.nodes@.len() implies (#[trigger] r.nodes@[i]).id
                    == i by {
                    assert(self.nodes@[i].id == i);
                }
            }
            if r.wf() {
                assert forall|i: int| 0 <= i < self.nodes@.len() implies (
                #[trigger] self.nodes@[i]).id == i by {
                    assert(r.nodes@[i].id == i);
                }
            }
        }
        r
    }
}

impl NetworkXGraph {
    /// The nodes in the order of their indices.
    pub fn nodes(&self) -> (r: &Vec<Node>)
        ensures
            r@ == self.node_seq(),
    {
        &self.nodes
    }

    /// The edges in insertion order.
    pub fn edges(&self) -> (r: &Vec<Edge>)
        ensures
            r@ == self.edge_seq(),
    {
        &self.edges
    }

    /// For every edge, in insertion order, the indices of its two ends.
    pub fn get_edges_pair(&self) -> (r: Vec<(usize, usize)>)
        ensures
            r@.len() == self@.edges.len(),
            forall|i: int|
                0 <= i < r@.len() ==> (#[trigger] r@[i]).0 == self@.edges[i].source && r@[i].1
                    == self@.edges[i].target,
    {
        let m = self.edges.len();
        let mut r: Vec<(usize, usize)> = Vec::new();
        let mut i: usize = 0;
        while i < m
            invariant
                m == self.edges@.len(),
                0 <= i <= m,
                r@.len() == i,
                forall|j: int|
                    0 <= j < i ==> (#[trigger] r@[j]).0 == self@.edges[j].source && r@[j].1
                        == self@.edges[j].target,
            decreases m - i,
        {
            r.push((self.edges[i].source, self.edges[i].target));
            i += 1;
        }
        r
    }

    /// The index of the node that `node_id` stands for.
    pub fn node_index(&self, node_id: &str) -> (r: Option<usize>)
        ensures
            r is Some <==> self@.ids.contains_key(node_id@),
            r is Some ==> r->0 == self@.ids[node_id@],
    {
        let key = node_id.to_owned();
        match self.node_indices.get(&key) {
            Some(i) => Some(*i),
            None => None,
        }
    }

    /// The label of the node that `node_id` stands for, if a node was added
    /// under that identifier.
    pub fn get_node_attributes(&self, node_id: &str) -> (r: Option<Label>)
        requires
            self.wf(),
        ensures
            r is Some <==> self@.ids.contains_key(node_id@),
            r is Some ==> r->0@ == self@.labels[self@.ids[node_id@]],
    {
        match self.node_index(node_id) {
            Some(i) => {
                assert(0 <= self@.ids[node_id@] < self@.labels.len());
                Some(self.nodes[i].attributes.clone())
            },
            None => None,
        }
    }

    /// The label of the first edge, in insertion order, that leads from the
    /// node that `source` stands for to the node that `target` stands for.
    /// There is none where an identifier stands for no node, or no such edge
    /// was added.
    pub fn get_edge_attributes(&self, source: &str, target: &str) -> (r: Option<Label>)
        ensures
            r is Some <==> self@.ids.contains_key(source@) && self@.ids.contains_key(target@)
                && first_edge(self@.edges, self@.ids[source@], self@.ids[target@])
                < self@.edges.len(),
            r is Some ==> r->0@ == self@.edges[first_edge(
                self@.edges,
                self@.ids[source@],
                self@.ids[target@],
            )].label,
    {
        let s = match self.node_index(source) {
            Some(i) => i,
            None => {
                return None;
            },
        };
        let t = match self.node_index(target) {
            Some(i) => i,
            None => {
                return None;
            },
        };
        let m = self.edges.len();
        let mut i: usize = 0;
        proof {
            lemma_first_edge(self@.edges, s as int, t as int);
        }
        while i < m
            invariant
                m == self.edges@.len(),
                m == self@.edges.len(),
                0 <= i <= m,
                self@.ids.contains_key(source@),
                self@.ids.contains_key(target@),
                s == self@.ids[source@],
                t == self@.ids[target@],
                i <= first_edge(self@.edges, s as int, t as int) <= m,
                first_edge(self@.edges, s as int, t as int) < m ==> {
                    let e = self@.edges[first_edge(self@.edges, s as int, t as int)];
                    e.source == s && e.target == t
                },
                forall|j: int|
                    0 <= j < first_edge(self@.edges, s as int, t as int) ==> !((
                    #[trigger] self@.edges[j]).source == s && self@.edges[j].target == t),
            decreases m - i,
        {
            let e = &self.edges[i];
            assert(self@.edges[i as int] == e@);
            if e.source == s && e.target == t {
                return Some(e.attributes.clone());
            }
            i += 1;
        }
        None
    }

    /// Whether the default label comparison accepts the label of `label` for
    /// the label of `node`. A comparison of the caller's own is handed to
    /// the engine instead.
    pub fn label_same(&self, node: &Node, label: &Node) -> (r: bool)
        ensures
            r == key_coverage(node.label()@, label.label()@),
    {
        native_same_label_fn(&node.attributes, &label.attributes)
    }

    /// The label of `node`.
    pub fn get_label<'a>(&'a self, node: &'a Node) -> (r: &'a Label)
        ensures
            *r == node.label(),
    {
        &node.attributes
    }
}

} // verus!
