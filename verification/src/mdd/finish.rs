//! The end of a compilation: the best node of the last layer, whether the
//! diagram is exact, and the local bounds of a relaxed diagram.

use crate::abstraction::Problem;
use crate::common::CompilationType;
use crate::index::{index_entries, lists_index};
use crate::mdd::arena::WithLongArcs;
use crate::mdd::bounds::same_but_below;
use std::hash::Hash;
use std::sync::Arc;
use vstd::prelude::*;
use vstd::std_specs::hash::obeys_key_model;

verus! {

impl<T: Eq + Hash> WithLongArcs<T> {
    /// Says that the best node is a node of the last layer with the
    /// greatest value in that layer, and that there is none only where the
    /// last layer is empty.
    pub open spec fn best_is_longest(&self) -> bool {
        match self.best_n {
            Some(b) => {
                &&& self.in_last_layer(b as int)
                &&& forall|v: int|
                    #![trigger self.nodes@[v]]
                    self.in_last_layer(v) ==> self.nodes@[v].value <= self.nodes@[b as int].value
            },
            None => self.next_l@ == (Map::<Arc<T>, usize>::empty()),
        }
    }

    /// Finds the best node of the last layer: one with the greatest value,
    /// the last such in the order of the index.
    pub fn find_best(&mut self)
        requires
            obeys_key_model::<T>(),
            old(self).wf(),
        ensures
            final(self).wf(),
            final(self).best_is_longest(),
            final(self).root_pa@ == old(self).root_pa@,
            final(self).nodes@ == old(self).nodes@,
            final(self).edges@ == old(self).edges@,
            final(self).next_l@ == old(self).next_l@,
            final(self).prev_l@ == old(self).prev_l@,
            final(self).lel == old(self).lel,
            final(self).exact == old(self).exact,
            final(self).settled@ == old(self).settled@,
    {
        let ghost before = *self;
        let entries = index_entries(&self.next_l);
        let mut best: Option<usize> = None;
        let mut i: usize = 0;
        while i < entries.len()
            invariant
                i <= entries@.len(),
                *self == before,
                before.wf(),
                lists_index(entries@, before.next_l@),
                i == 0 <==> best is None,
                best matches Some(b) ==> before.in_last_layer(b as int) && forall|j: int|
                    0 <= j < i ==> before.nodes@[(#[trigger] entries@[j]).1 as int].value
                        <= before.nodes@[b as int].value,
            decreases entries@.len() - i,
        {
            let id = entries[i].1;
            proof {
                before.lemma_entry_in_layer(entries@, i as int);
            }
            let better = match best {
                Some(b) => self.nodes[id].value >= self.nodes[b].value,
                None => true,
            };
            if better {
                best = Some(id);
            }
            i += 1;
        }
        self.best_n = best;
        proof {
            self.lemma_same_arena_wf(&before);
            match best {
                Some(b) => {
                    assert forall|v: int|
                        #![trigger self.nodes@[v]]
                        self.in_last_layer(v) implies self.nodes@[v].value <= self.nodes@[b as int].value by {
                        let state = before.nodes@[v].state;
                        let j = choose|j: int|
                            0 <= j < entries@.len() && (#[trigger] entries@[j]).0 == state;
                        assert(before.next_l@.contains_pair(entries@[j].0, entries@[j].1));
                    }
                },
                None => {
                    assert(before.next_l@ =~= Map::<Arc<T>, usize>::empty());
                },
            }
        }
    }

    /// Local bounds change neither which nodes are exact or relaxed nor the
    /// best edges, hence not whether a best path is exact.
    pub proof fn lemma_bounded_same_exactness(&self, before: &Self, n: int)
        requires
            self.edges@ == before.edges@,
            self.nodes@.len() == before.nodes@.len(),
            forall|m: int|
                0 <= m < self.nodes@.len() ==> same_but_below(
                    #[trigger] self.nodes@[m],
                    before.nodes@[m],
                ),
        ensures
            self.exact_best_path(n) == before.exact_best_path(n),
        decreases n,
    {
        if 0 <= n < self.nodes@.len() {
            assert(same_but_below(self.nodes@[n], before.nodes@[n]));
            match self.best_source(n) {
                Some(source) => {
                    self.lemma_bounded_same_exactness(before, source);
                },
                None => {},
            }
        }
    }

    /// Says that `self` is `before` with its best node found and its
    /// exactness decided, and nothing else changed.
    pub open spec fn is_decided_from(&self, before: &Self, comp_type: CompilationType) -> bool {
        &&& self.best_is_longest()
        &&& self.exact == self.is_exact_spec(comp_type)
        &&& self.root_pa@ == before.root_pa@
        &&& self.nodes@ == before.nodes@
        &&& self.edges@ == before.edges@
        &&& self.next_l@ == before.next_l@
        &&& self.prev_l@ == before.prev_l@
        &&& self.lel == before.lel
        &&& self.settled@ == before.settled@
    }

    /// Says that `self` is the diagram `before` at the end of a compilation
    /// of the given kind: its best node is the best of the last layer; it is
    /// exact if no layer had to shrink or if it is relaxed and its best path
    /// is a path of the problem; a relaxed diagram that is not exact has its
    /// local bounds; and nothing else differs.
    pub open spec fn is_finished_from(&self, before: &Self, comp_type: CompilationType) -> bool {
        &&& self.best_is_longest()
        &&& self.exact == self.is_exact_spec(comp_type)
        &&& comp_type is Relaxed && !self.exact ==> self.marks_closed()
        &&& comp_type is Relaxed && !self.exact ==> exists|
            decided: Self,
            queue: Seq<usize>,
            seeds: int,
            steps: Seq<Self>,
        |
            {
                &&& decided.is_decided_from(before, comp_type)
                &&& #[trigger] self.is_walk_of(&decided, queue, seeds, steps)
            }
        &&& !(comp_type is Relaxed) || self.exact ==> self.nodes@ == before.nodes@
        &&& self.root_pa@ == before.root_pa@
        &&& self.edges@ == before.edges@
        &&& self.next_l@ == before.next_l@
        &&& self.prev_l@ == before.prev_l@
        &&& self.lel == before.lel
        &&& self.settled@ == before.settled@
        &&& self.nodes@.len() == before.nodes@.len()
        &&& forall|n: int|
            0 <= n < self.nodes@.len() ==> same_but_below(#[trigger] self.nodes@[n], before.nodes@[n])
    }

    /// Ends a compilation: finds the best node, decides whether the diagram
    /// is exact, and computes the local bounds of a relaxed diagram.
    pub fn finish(&mut self, comp_type: CompilationType)
        requires
            obeys_key_model::<T>(),
            old(self).wf(),
            old(self).unbounded(),
        ensures
            final(self).wf(),
            final(self).is_finished_from(old(self), comp_type),
    {
        self.find_best();
        let relaxed = match comp_type {
            CompilationType::Relaxed => true,
            _ => false,
        };
        let ghost found = *self;
        let exact = self.lel.is_none() || (relaxed && self.has_exact_best_path(self.best_n));
        self.exact = exact;
        proof {
            self.lemma_same_arena_wf(&found);
            if let Some(b) = self.best_n {
                self.lemma_same_paths(&found, b as int);
            }
        }
        let ghost decided = *self;
        if relaxed {
            self.compute_local_bounds();
            proof {
                if !decided.exact {
                    let (queue, seeds, steps) = choose|
                        queue: Seq<usize>,
                        seeds: int,
                        steps: Seq<Self>,
                    | #[trigger] self.is_walk_of(&decided, queue, seeds, steps);
                    assert(decided.is_decided_from(&old(self), comp_type));
                    assert(self.is_walk_of(&decided, queue, seeds, steps));
                }
                self.lemma_bounded_keeps(&decided);
                if let Some(b) = self.best_n {
                    self.lemma_bounded_same_exactness(&decided, b as int);
                    assert(same_but_below(self.nodes@[b as int], decided.nodes@[b as int]));
                    assert forall|v: int|
                        #![trigger self.nodes@[v]]
                        self.in_last_layer(v) implies self.nodes@[v].value <= self.nodes@[b as int].value by {
                        assert(decided.in_last_layer(v));
                        assert(same_but_below(self.nodes@[v], decided.nodes@[v]));
                    }
                }
            }
        }
    }

    /// The end of a compilation keeps a faithful diagram faithful, and
    /// every node exact if every node was.
    pub proof fn lemma_finish_keeps_faithful<P: Problem<State = T>>(
        &self,
        before: &Self,
        problem: &P,
        comp_type: CompilationType,
    )
        requires
            before.wf(),
            self.is_finished_from(before, comp_type),
        ensures
            before.faithful(problem) ==> self.faithful(problem),
            before.all_exact() ==> self.all_exact(),
    {
        assert(self.same_arena(before)) by {
            assert forall|n: int| 0 <= n < self.nodes@.len() implies {
                &&& (#[trigger] self.nodes@[n]).state == before.nodes@[n].state
                &&& self.nodes@[n].value == before.nodes@[n].value
                &&& self.nodes@[n].best == before.nodes@[n].best
                &&& self.nodes@[n].inbound == before.nodes@[n].inbound
                &&& self.nodes@[n].flags.exact() == before.nodes@[n].flags.exact()
                &&& self.nodes@[n].flags.relaxed() == before.nodes@[n].flags.relaxed()
            } by {
                assert(same_but_below(self.nodes@[n], before.nodes@[n]));
            }
        }
        if before.faithful(problem) {
            self.lemma_same_arena_faithful(before, problem);
        }
        if before.all_exact() {
            assert forall|n: int| 0 <= n < self.nodes@.len() implies (
            #[trigger] self.nodes@[n]).flags.exact() by {
                assert(before.nodes@[n].flags.exact());
            }
        }
    }
}

} // verus!
