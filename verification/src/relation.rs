//! Candidate relations between the nodes of a pattern and of a target graph.

use vstd::prelude::*;
use vstd::set_lib::*;
use crate::model::{without, Relation};

verus! {

/// Number of pairs of a relation whose candidate sets are finite.
pub open spec fn relation_size(r: Relation) -> nat
    decreases r.len(),
{
    if r.len() == 0 {
        0
    } else {
        relation_size(r.drop_last()) + r.last().len()
    }
}

/// Every candidate set of `r` is finite.
pub open spec fn finite_sets(r: Relation) -> bool {
    forall|u: int| 0 <= u < r.len() ==> (#[trigger] r[u]).finite()
}

/// Taking a pair out of a relation makes it smaller by one.
pub proof fn lemma_without_size(r: Relation, u: int, v: int)
    requires
        finite_sets(r),
        0 <= u < r.len(),
        r[u].contains(v),
    ensures
        relation_size(without(r, u, v)) + 1 == relation_size(r),
        finite_sets(without(r, u, v)),
    decreases r.len(),
{
    let w = without(r, u, v);
    assert(r[u].finite());
    assert forall|i: int| 0 <= i < w.len() implies (#[trigger] w[i]).finite() by {
        if i != u {
            assert(w[i] == r[i]);
            assert(r[i].finite());
        }
    }
    if u == r.len() - 1 {
        assert(w.drop_last() =~= r.drop_last());
    } else {
        let front = r.drop_last();
        assert forall|i: int| 0 <= i < front.len() implies (#[trigger] front[i]).finite() by {
            assert(front[i] == r[i]);
        }
        lemma_without_size(front, u, v);
        assert(w.drop_last() =~= without(front, u, v));
        assert(w.last() == r.last());
    }
}

/// The candidate sets of a pattern's nodes among the nodes of a target.
#[derive(Debug)]
pub struct Sim {
    rows: Vec<Vec<bool>>,
    width: usize,
}

impl Sim {
    /// Every pattern node has one flag for each target node.
    pub closed spec fn wf(&self) -> bool {
        forall|u: int| 0 <= u < self.rows@.len() ==> (#[trigger] self.rows@[u])@.len() == self.width
    }

    /// Number of target nodes.
    pub closed spec fn targets(&self) -> nat {
        self.width as nat
    }

    /// The relation: for each pattern node the set of its candidates.
    pub closed spec fn view(&self) -> Relation {
        Seq::new(
            self.rows@.len(),
            |u: int| Set::new(|v: int| 0 <= v < self.rows@[u]@.len() && self.rows@[u]@[v]),
        )
    }

    /// Candidates are target nodes, so every candidate set is finite.
    pub proof fn lemma_bounded(&self)
        requires
            self.wf(),
        ensures
            finite_sets(self@),
            forall|u: int, v: int|
                0 <= u < self@.len() && #[trigger] self@[u].contains(v) ==> 0 <= v < self.targets(),
    {
        assert forall|u: int| 0 <= u < self@.len() implies (#[trigger] self@[u]).finite() by {
            lemma_int_range(0, self.width as int);
            assert(self.rows@[u]@.len() == self.width);
            assert(self@[u].subset_of(set_int_range(0, self.width as int)));
            lemma_len_subset(self@[u], set_int_range(0, self.width as int));
        }
        assert forall|u: int, v: int| 0 <= u < self@.len() && #[trigger] self@[u].contains(
            v,
        ) implies 0 <= v < self.targets() by {
            assert(self.rows@[u]@.len() == self.width);
        }
    }

    /// The empty relation between `pattern_nodes` and `target_nodes` nodes.
    pub fn new(pattern_nodes: usize, target_nodes: usize) -> (r: Self)
        ensures
            r.wf(),
            r.targets() == target_nodes,
            r@ == Seq::new(pattern_nodes as nat, |u: int| Set::<int>::empty()),
    {
        let mut rows: Vec<Vec<bool>> = Vec::new();
        let mut u: usize = 0;
        while u < pattern_nodes
            invariant
                0 <= u <= pattern_nodes,
                rows@.len() == u,
                forall|i: int|
                    0 <= i < u ==> (#[trigger] rows@[i])@.len() == target_nodes && forall|v: int|
                        0 <= v < target_nodes ==> !rows@[i]@[v],
            decreases pattern_nodes - u,
        {
            let mut row: Vec<bool> = Vec::new();
            let mut v: usize = 0;
            while v < target_nodes
                invariant
                    0 <= v <= target_nodes,
                    row@.len() == v,
                    forall|j: int| 0 <= j < v ==> !row@[j],
                decreases target_nodes - v,
            {
                row.push(false);
                v += 1;
            }
            rows.push(row);
            u += 1;
        }
        let r = Sim { rows, width: target_nodes };
        proof {
            let e = Seq::new(pattern_nodes as nat, |u: int| Set::<int>::empty());
            assert forall|i: int| 0 <= i < r@.len() implies r@[i] =~= e[i] by {
                assert(r.rows@[i]@.len() == target_nodes);
            }
            assert(r@ =~= e);
        }
        r
    }

    /// Number of pattern nodes.
    pub fn len(&self) -> (n: usize)
        ensures
            n == self@.len(),
    {
        self.rows.len()
    }

    /// Number of target nodes.
    pub fn target_count(&self) -> (n: usize)
        ensures
            n == self.targets(),
    {
        self.width
    }

    /// Whether target node `v` is a candidate of pattern node `u`.
    pub fn contains(&self, u: usize, v: usize) -> (r: bool)
        ensures
            r == (u < self@.len() && self@[u as int].contains(v as int)),
    {
        if u < self.rows.len() {
            let row = &self.rows[u];
            v < row.len() && row[v]
        } else {
            false
        }
    }

    fn put(&mut self, u: usize, v: usize, flag: bool)
        requires
            old(self).wf(),
            u < old(self)@.len(),
            v < old(self).targets(),
        ensures
            final(self).wf(),
            final(self).targets() == old(self).targets(),
            final(self)@ == old(self)@.update(
                u as int,
                if flag {
                    old(self)@[u as int].insert(v as int)
                } else {
                    old(self)@[u as int].remove(v as int)
                },
            ),
    {
        let ghost before = self.rows@;
        let mut row: Vec<bool> = Vec::new();
        self.rows.set_and_swap(u, &mut row);
        row.set(v, flag);
        self.rows.set_and_swap(u, &mut row);
        proof {
            let want = old(self)@.update(
                u as int,
                if flag {
                    old(self)@[u as int].insert(v as int)
                } else {
                    old(self)@[u as int].remove(v as int)
                },
            );
            assert(self.rows@[u as int]@ == before[u as int]@.update(v as int, flag));
            assert forall|i: int| 0 <= i < self.rows@.len() implies (#[trigger] self.rows@[i])@.len()
                == self.width by {
                if i != u {
                    assert(self.rows@[i] == before[i]);
                }
                assert(before[i]@.len() == self.width);
            }
            assert forall|i: int| 0 <= i < self@.len() implies self@[i] =~= want[i] by {
                if i != u {
                    assert(self.rows@[i] == before[i]);
                }
            }
            assert(self@ =~= want);
        }
    }

    /// Makes target node `v` a candidate of pattern node `u`.
    pub fn insert(&mut self, u: usize, v: usize)
        requires
            old(self).wf(),
            u < old(self)@.len(),
            v < old(self).targets(),
        ensures
            final(self).wf(),
            final(self).targets() == old(self).targets(),
            final(self)@ == old(self)@.update(u as int, old(self)@[u as int].insert(v as int)),
    {
        self.put(u, v, true);
    }

    /// Takes target node `v` out of the candidates of pattern node `u`.
    pub fn remove(&mut self, u: usize, v: usize)
        requires
            old(self).wf(),
            u < old(self)@.len(),
            v < old(self).targets(),
        ensures
            final(self).wf(),
            final(self).targets() == old(self).targets(),
            final(self)@ == without(old(self)@, u as int, v as int),
    {
        self.put(u, v, false);
    }

    /// The candidates of pattern node `u` in ascending order.
    pub fn candidates(&self, u: usize) -> (r: Vec<usize>)
        requires
            self.wf(),
            u < self@.len(),
        ensures
            forall|i: int| 0 <= i < r@.len() ==> self@[u as int].contains(#[trigger] r@[i] as int),
            forall|v: int|
                #[trigger] self@[u as int].contains(v) ==> exists|i: int|
                    0 <= i < r@.len() && r@[i] == v,
            forall|i: int, j: int| 0 <= i < j < r@.len() ==> r@[i] < r@[j],
    {
        let row = &self.rows[u];
        let mut r: Vec<usize> = Vec::new();
        let mut v: usize = 0;
        while v < self.width
            invariant
                self.wf(),
                u < self@.len(),
                row@ == self.rows@[u as int]@,
                row@.len() == self.width,
                0 <= v <= self.width,
                forall|x: int| 0 <= x < v && row@[x] ==> r@.contains(x as usize),
                forall|i: int| 0 <= i < r@.len() ==> r@[i] < v && row@[r@[i] as int],
                forall|i: int, j: int| 0 <= i < j < r@.len() ==> r@[i] < r@[j],
            decreases self.width - v,
        {
            if row[v] {
                let ghost before = r@;
                r.push(v);
                proof {
                    assert(r@[r@.len() - 1] == v);
                    assert forall|x: int| 0 <= x < v + 1 && row@[x] implies r@.contains(x as usize) by {
                        if x < v {
                            let i = choose|i: int| 0 <= i < before.len() && before[i] == x as usize;
                            assert(r@[i] == x as usize);
                        }
                    }
                }
            }
            v += 1;
        }
        proof {
            assert forall|x: int| #[trigger] self@[u as int].contains(x) implies exists|i: int|
                0 <= i < r@.len() && r@[i] == x by {
                assert(r@.contains(x as usize));
                let i = choose|i: int| 0 <= i < r@.len() && r@[i] == x as usize;
                assert(r@[i] == x);
            }
        }
        r
    }
}

} // verus!
