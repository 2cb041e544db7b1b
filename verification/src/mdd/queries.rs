//! Making a diagram, emptying it, and reading what a compilation left in it.

use crate::common::Decision;
use crate::index::StateIndex;
use crate::mdd::arena::WithLongArcs;
use std::hash::Hash;
use vstd::prelude::*;

verus! {

/// A copy of a sequence of decisions.
pub fn copy_decisions(decisions: &Vec<Decision>) -> (copy: Vec<Decision>)
    ensures
        copy@ == decisions@,
{
    let mut copy: Vec<Decision> = Vec::new();
    let mut i: usize = 0;
    while i < decisions.len()
        invariant
            i <= decisions@.len(),
            copy@ == decisions@.take(i as int),
        decreases decisions@.len() - i,
    {
        copy.push(decisions[i]);
        i += 1;
        assert(copy@ =~= decisions@.take(i as int));
    }
    assert(decisions@.take(decisions@.len() as int) =~= decisions@);
    copy
}

impl<T: Eq + Hash> Default for WithLongArcs<T> {
    /// A diagram that holds nothing and counts as exact.
    fn default() -> (dd: WithLongArcs<T>)
        ensures
            dd.wf(),
            dd.nodes@.len() == 0,
            dd.edges@.len() == 0,
            dd.root_pa@.len() == 0,
            dd.prev_l@.len() == 0,
            dd.next_l@ == (Map::<std::sync::Arc<T>, usize>::empty()),
            dd.lel is None,
            dd.best_n is None,
            dd.exact,
    {
        WithLongArcs::new()
    }
}

impl<T: Eq + Hash> WithLongArcs<T> {
    /// A diagram that holds nothing and counts as exact.
    pub fn new() -> (dd: WithLongArcs<T>)
        ensures
            dd.wf(),
            dd.nodes@.len() == 0,
            dd.edges@.len() == 0,
            dd.root_pa@.len() == 0,
            dd.prev_l@.len() == 0,
            dd.next_l@ == (Map::<std::sync::Arc<T>, usize>::empty()),
            dd.lel is None,
            dd.best_n is None,
            dd.exact,
    {
        WithLongArcs {
            root_pa: Vec::new(),
            nodes: Vec::new(),
            edges: Vec::new(),
            prev_l: Vec::new(),
            next_l: StateIndex::default(),
            lel: None,
            best_n: None,
            exact: true,
            settled: Ghost(0),
        }
    }

    /// Empties the diagram for a new compilation.
    pub fn clear(&mut self)
        ensures
            final(self).wf(),
            final(self).nodes@.len() == 0,
            final(self).edges@.len() == 0,
            final(self).root_pa@.len() == 0,
            final(self).prev_l@.len() == 0,
            final(self).next_l@ == (Map::<std::sync::Arc<T>, usize>::empty()),
            final(self).lel is None,
            final(self).best_n is None,
            final(self).exact,
            final(self).settled@ == 0,
    {
        self.root_pa.clear();
        self.nodes.clear();
        self.edges.clear();
        self.prev_l.clear();
        self.next_l.clear();
        self.lel = None;
        self.best_n = None;
        self.exact = true;
        self.settled = Ghost(0);
    }

    /// Tells whether the best value of the diagram is known to be the
    /// optimum of the subproblem it was compiled for.
    pub fn is_exact(&self) -> (exact: bool)
        ensures
            exact == self.exact,
    {
        self.exact
    }

    /// The value of the longest path of the diagram, if it has a path.
    pub fn best_value(&self) -> (value: Option<isize>)
        requires
            self.wf(),
        ensures
            value == self.best_value_spec(),
    {
        match self.best_n {
            Some(id) => Some(self.nodes[id].value),
            None => None,
        }
    }

    /// The decisions of the longest path of the diagram, if it has a path:
    /// those that led to its root, then those of the path, the last first.
    pub fn best_solution(&self) -> (solution: Option<Vec<Decision>>)
        requires
            self.wf(),
        ensures
            solution is Some == self.best_n is Some,
            solution matches Some(path) ==> Some(path@) == self.best_solution_spec(),
    {
        match self.best_n {
            Some(id) => Some(self.best_path_of(id)),
            None => None,
        }
    }

    /// The path of one node: the decisions that led to the root of the
    /// diagram, then those along the best edges from the node back to the
    /// root, the last first.
    pub fn best_path_of(&self, id: usize) -> (path: Vec<Decision>)
        requires
            self.wf(),
            id < self.nodes@.len(),
        ensures
            path@ == self.best_path(id as int),
    {
        let mut path = copy_decisions(&self.root_pa);
        let mut node: usize = id;
        let mut edge_id: Option<usize> = self.nodes[id].best;
        while edge_id.is_some()
            invariant
                self.wf(),
                node < self.nodes@.len(),
                edge_id == self.nodes@[node as int].best,
                path@ + self.best_decisions(node as int) == self.best_path(id as int),
            decreases node,
        {
            let eid = edge_id.unwrap();
            assert(self.node_wf(node as int));
            let edge = self.edges[eid];
            assert(self.edge_wf(eid as int));
            proof {
                assert(self.best_source(node as int) == Some(edge.from as int));
                assert(path@.push(edge.decision) + self.best_decisions(edge.from as int) =~= path@
                    + self.best_decisions(node as int));
            }
            path.push(edge.decision);
            node = edge.from;
            edge_id = self.nodes[node].best;
        }
        proof {
            assert(self.best_source(node as int) is None);
            assert(path@ + self.best_decisions(node as int) =~= path@);
        }
        path
    }

    /// Tells whether the best path of the given node is a path of the
    /// problem; no node is one.
    pub fn has_exact_best_path(&self, node: Option<usize>) -> (exact: bool)
        requires
            self.wf(),
            node matches Some(id) ==> id < self.nodes@.len(),
        ensures
            exact == match node {
                Some(id) => self.exact_best_path(id as int),
                None => true,
            },
    {
        let mut current: Option<usize> = node;
        loop
            invariant
                self.wf(),
                current matches Some(id) ==> id < self.nodes@.len(),
                (match current {
                    Some(id) => self.exact_best_path(id as int),
                    None => true,
                }) == (match node {
                    Some(id) => self.exact_best_path(id as int),
                    None => true,
                }),
            decreases
                (match current {
                    Some(id) => id + 1,
                    None => 0,
                }),
        {
            match current {
                None => {
                    return true;
                },
                Some(id) => {
                    assert(self.node_wf(id as int));
                    if self.nodes[id].flags.is_exact() {
                        return true;
                    } else if self.nodes[id].flags.is_relaxed() {
                        return false;
                    } else {
                        match self.nodes[id].best {
                            None => {
                                return true;
                            },
                            Some(eid) => {
                                assert(self.edge_wf(eid as int));
                                current = Some(self.edges[eid].from);
                            },
                        }
                    }
                },
            }
        }
    }

    /// Whether a diagram compiled in the given way is exact: no layer had to
    /// shrink, or the diagram is relaxed and its best path is a path of the
    /// problem.
    pub open spec fn is_exact_spec(&self, comp_type: crate::common::CompilationType) -> bool {
        ||| self.lel is None
        ||| (comp_type is Relaxed && match self.best_n {
            Some(id) => self.exact_best_path(id as int),
            None => true,
        })
    }
}

} // verus!
