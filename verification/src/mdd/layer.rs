//! The layer under construction: asking the problem for the next variable,
//! parting the nodes of the layer by that variable, and settling the arena
//! before the layer is developed.

use crate::abstraction::{Problem, StateIter};
use crate::common::Variable;
use crate::index::{index_drain, index_entries, lists_index};
use crate::mdd::arena::WithLongArcs;
use std::hash::Hash;
use std::sync::Arc;
use vstd::prelude::*;
use vstd::std_specs::hash::obeys_key_model;

verus! {

/// Says that `id` is one of `ids`.
pub open spec fn holds(ids: Seq<usize>, id: usize) -> bool {
    exists|i: int| 0 <= i < ids.len() && #[trigger] ids[i] == id
}

/// Says that the problem names a variable whatever layer it is shown.
pub open spec fn always_proposes<P: Problem>(problem: &P) -> bool {
    forall|cursor: &mut StateIter<'_, P::State>, variable: Option<Variable>|
        call_ensures(P::next_variable, (problem, cursor), variable) ==> variable is Some
}

impl<T: Eq + Hash> WithLongArcs<T> {
    /// Says that `self` and `before` have the same nodes and edges and agree
    /// on everything but the layer under construction and the settled mark.
    pub open spec fn same_but_frontier(&self, before: &Self) -> bool {
        &&& self.root_pa@ == before.root_pa@
        &&& self.nodes@ == before.nodes@
        &&& self.edges@ == before.edges@
        &&& self.prev_l@ == before.prev_l@
        &&& self.lel == before.lel
        &&& self.best_n == before.best_n
        &&& self.exact == before.exact
    }

    /// Asks the problem for the variable to branch on next, showing it the
    /// states of the layer under construction.
    pub fn next_variable<P: Problem<State = T>>(&self, problem: &P) -> (variable: Option<Variable>)
        requires
            obeys_key_model::<T>(),
        ensures
            always_proposes(problem) ==> variable is Some,
            self.is_asked(problem, variable),
    {
        let entries = index_entries(&self.next_l);
        let mut states: Vec<Arc<T>> = Vec::new();
        let mut i: usize = 0;
        while i < entries.len()
            invariant
                i <= entries@.len(),
                states@.len() == i,
                forall|k: int| 0 <= k < i ==> #[trigger] states@[k] == entries@[k].0,
            decreases entries@.len() - i,
        {
            states.push(entries[i].0.clone());
            i += 1;
        }
        proof {
            assert forall|state: Arc<T>| #[trigger] self.next_l@.contains_key(state) implies exists|
                k: int,
            |
                0 <= k < states@.len() && #[trigger] states@[k] == state by {
                let j = choose|j: int| 0 <= j < entries@.len() && (#[trigger] entries@[j]).0 == state;
                assert(states@[j] == state);
            }
            assert forall|k: int| 0 <= k < states@.len() implies self.next_l@.contains_key(
                #[trigger] states@[k],
            ) by {
                assert(self.next_l@.contains_pair(entries@[k].0, entries@[k].1));
            }
            assert forall|k: int, j: int| 0 <= k < j < states@.len() implies #[trigger] states@[k]
                != #[trigger] states@[j] by {
                assert(entries@[k].0 != entries@[j].0);
            }
        }
        let mut cursor = StateIter::new(&states);
        problem.next_variable(&mut cursor)
    }

    /// Says that `answer` is what the problem answered when it was asked
    /// for the next variable and shown the states of the layer under
    /// construction, each once, in some order.
    pub open spec fn is_asked<P: Problem<State = T>>(
        &self,
        problem: &P,
        answer: Option<Variable>,
    ) -> bool {
        exists|cursor: &mut StateIter<'_, T>|
            {
                &&& #[trigger] call_ensures(P::next_variable, (problem, cursor), answer)
                &&& cursor.position == 0
                &&& self.shows_last_layer(cursor.states@)
            }
    }

    /// Says that `states` lists the states of the layer under construction,
    /// each once, in some order.
    pub open spec fn shows_last_layer(&self, states: Seq<Arc<T>>) -> bool {
        &&& forall|k: int| 0 <= k < states.len() ==> self.next_l@.contains_key(#[trigger] states[k])
        &&& forall|k: int, j: int|
            0 <= k < j < states.len() ==> #[trigger] states[k] != #[trigger] states[j]
        &&& forall|state: Arc<T>| #[trigger]
            self.next_l@.contains_key(state) ==> exists|k: int|
                0 <= k < states.len() && #[trigger] states[k] == state
    }

    /// Says that `self` is `before` with its layer under construction
    /// emptied, and that `impacted` and `others` hold the nodes of that
    /// layer: `impacted` those whose state the problem said was impacted by
    /// `variable`, `others` those of which it said the contrary; each node
    /// of the layer is in one of the two, once.
    pub open spec fn is_split_of<P: Problem<State = T>>(
        &self,
        before: &Self,
        problem: &P,
        variable: Variable,
        impacted: Seq<usize>,
        others: Seq<usize>,
    ) -> bool {
        &&& self.same_but_frontier(before)
        &&& self.settled@ == before.settled@
        &&& self.next_l@ == (Map::<Arc<T>, usize>::empty())
        &&& forall|i: int|
            0 <= i < impacted.len() ==> before.in_last_layer(#[trigger] impacted[i] as int)
                && call_ensures(
                P::is_impacted_by,
                (problem, variable, &*before.nodes@[impacted[i] as int].state),
                true,
            )
        &&& forall|i: int|
            0 <= i < others.len() ==> before.in_last_layer(#[trigger] others[i] as int)
                && call_ensures(
                P::is_impacted_by,
                (problem, variable, &*before.nodes@[others[i] as int].state),
                false,
            )
        &&& forall|v: int|
            #![trigger before.nodes@[v]]
            before.in_last_layer(v) ==> holds(impacted, v as usize) || holds(others, v as usize)
        &&& (impacted + others).no_duplicates()
    }

    /// Empties the layer under construction and parts its nodes in two:
    /// first those whose state the problem says is impacted by `variable`,
    /// then the others. Each node of the layer is in one of the two, once.
    pub fn split_frontier<P: Problem<State = T>>(&mut self, problem: &P, variable: Variable) -> (parts:
        (Vec<usize>, Vec<usize>))
        requires
            obeys_key_model::<T>(),
            old(self).wf(),
        ensures
            final(self).wf(),
            final(self).is_split_of(old(self), problem, variable, parts.0@, parts.1@),
            parts.0@.len() + parts.1@.len() == 0 <==> old(self).next_l@ == (Map::<
                Arc<T>,
                usize,
            >::empty()),
    {
        let ghost before = *self;
        let entries = index_drain(&mut self.next_l);
        let mut impacted: Vec<usize> = Vec::new();
        let mut others: Vec<usize> = Vec::new();
        proof {
            self.lemma_same_arena_wf_frontier(&before);
        }
        let mut i: usize = 0;
        while i < entries.len()
            invariant
                i <= entries@.len(),
                before.wf(),
                lists_index(entries@, before.next_l@),
                impacted@.len() + others@.len() == i,
                forall|k: int|
                    0 <= k < impacted@.len() ==> before.in_last_layer(#[trigger] impacted@[k] as int)
                        && call_ensures(
                        P::is_impacted_by,
                        (problem, variable, &*before.nodes@[impacted@[k] as int].state),
                        true,
                    ) && exists|j: int| 0 <= j < i && (#[trigger] entries@[j]).1 == impacted@[k],
                forall|k: int|
                    0 <= k < others@.len() ==> before.in_last_layer(#[trigger] others@[k] as int)
                        && call_ensures(
                        P::is_impacted_by,
                        (problem, variable, &*before.nodes@[others@[k] as int].state),
                        false,
                    ) && exists|j: int| 0 <= j < i && (#[trigger] entries@[j]).1 == others@[k],
                forall|j: int|
                    0 <= j < i ==> holds(impacted@, (#[trigger] entries@[j]).1) || holds(
                        others@,
                        entries@[j].1,
                    ),
                (impacted@ + others@).no_duplicates(),
            decreases entries@.len() - i,
        {
            let ghost was_impacted = impacted@;
            let ghost was_others = others@;
            let id = entries[i].1;
            proof {
                before.lemma_entry_in_layer(entries@, i as int);
                assert forall|k: int| 0 <= k < (was_impacted + was_others).len() implies (
                was_impacted + was_others)[k] != id by {
                    let other = if k < was_impacted.len() {
                        was_impacted[k]
                    } else {
                        was_others[k - was_impacted.len()]
                    };
                    assert((was_impacted + was_others)[k] == other);
                    let j = choose|j: int| 0 <= j < i && (#[trigger] entries@[j]).1 == other;
                    before.lemma_entry_in_layer(entries@, j);
                    assert(entries@[j].0 != entries@[i as int].0);
                }
            }
            if problem.is_impacted_by(variable, &*entries[i].0) {
                impacted.push(id);
                proof {
                    assert(impacted@[impacted@.len() - 1] == id);
                    assert forall|j: int| 0 <= j < i + 1 implies holds(
                        impacted@,
                        (#[trigger] entries@[j]).1,
                    ) || holds(others@, entries@[j].1) by {
                        if j < i {
                            if holds(was_impacted, entries@[j].1) {
                                let w = choose|w: int|
                                    0 <= w < was_impacted.len() && #[trigger] was_impacted[w]
                                        == entries@[j].1;
                                assert(impacted@[w] == entries@[j].1);
                            }
                        }
                    }
                    lemma_no_duplicates_insert(was_impacted, was_others, id, true);
                }
            } else {
                others.push(id);
                proof {
                    assert(others@[others@.len() - 1] == id);
                    assert forall|j: int| 0 <= j < i + 1 implies holds(
                        impacted@,
                        (#[trigger] entries@[j]).1,
                    ) || holds(others@, entries@[j].1) by {
                        if j < i {
                            if holds(was_others, entries@[j].1) {
                                let w = choose|w: int|
                                    0 <= w < was_others.len() && #[trigger] was_others[w]
                                        == entries@[j].1;
                                assert(others@[w] == entries@[j].1);
                            }
                        }
                    }
                    lemma_no_duplicates_insert(was_impacted, was_others, id, false);
                }
            }
            i += 1;
        }
        proof {
            assert forall|v: int|
                #![trigger before.nodes@[v]]
                before.in_last_layer(v) implies holds(impacted@, v as usize) || holds(
                others@,
                v as usize,
            ) by {
                let state = before.nodes@[v].state;
                let j = choose|j: int| 0 <= j < entries@.len() && (#[trigger] entries@[j]).0 == state;
                assert(before.next_l@.contains_pair(entries@[j].0, entries@[j].1));
            }
            if entries@.len() == 0 {
                assert(before.next_l@ =~= Map::<Arc<T>, usize>::empty());
            } else {
                assert(before.next_l@.contains_pair(entries@[0].0, entries@[0].1));
                assert(before.next_l@.contains_key(entries@[0].0));
            }
        }
        (impacted, others)
    }

    /// An entry of the index of the layer under construction names a node
    /// of that layer, under the state of that node.
    pub proof fn lemma_entry_in_layer(&self, entries: Seq<(Arc<T>, usize)>, j: int)
        requires
            self.wf(),
            lists_index(entries, self.next_l@),
            0 <= j < entries.len(),
        ensures
            self.in_last_layer(entries[j].1 as int),
            self.nodes@[entries[j].1 as int].state == entries[j].0,
            self.settled@ <= entries[j].1 < self.nodes@.len(),
    {
        assert(self.next_l@.contains_pair(entries[j].0, entries[j].1));
        assert(self.next_l@.contains_key(entries[j].0));
    }

    /// A diagram that differs from a well-formed one only in that its layer
    /// under construction is empty is well formed.
    pub proof fn lemma_same_arena_wf_frontier(&self, before: &Self)
        requires
            before.wf(),
            self.same_but_frontier(before),
            self.settled@ == before.settled@,
            self.next_l@ == (Map::<Arc<T>, usize>::empty()),
        ensures
            self.wf(),
    {
        self.lemma_extends_wf(before);
    }

    /// Says that `self` is `before` with every node settled.
    pub open spec fn is_settled_from(&self, before: &Self) -> bool {
        &&& self.same_but_frontier(before)
        &&& self.next_l@ == before.next_l@
        &&& self.settled@ == self.nodes@.len()
    }

    /// Says that `self` is `before` with `layer` as the layer that was
    /// developed last.
    pub open spec fn is_with_prev_layer(&self, before: &Self, layer: Seq<usize>) -> bool {
        &&& self.prev_l@ == layer
        &&& self.root_pa@ == before.root_pa@
        &&& self.nodes@ == before.nodes@
        &&& self.edges@ == before.edges@
        &&& self.next_l@ == before.next_l@
        &&& self.lel == before.lel
        &&& self.best_n == before.best_n
        &&& self.exact == before.exact
        &&& self.settled@ == before.settled@
    }

    /// Settles every node of the arena, once the layer under construction
    /// is empty: from now on edges may leave them.
    pub fn settle(&mut self)
        requires
            old(self).wf(),
            old(self).next_l@ == (Map::<Arc<T>, usize>::empty()),
        ensures
            final(self).wf(),
            final(self).is_settled_from(old(self)),
    {
        let ghost before = *self;
        self.settled = Ghost(self.nodes@.len());
        proof {
            self.lemma_extends_wf(&before);
        }
    }

    /// Makes `layer` the layer that was developed last.
    pub fn set_prev_layer(&mut self, layer: Vec<usize>)
        requires
            old(self).wf(),
            forall|i: int| 0 <= i < layer@.len() ==> #[trigger] layer@[i] < old(self).nodes@.len(),
        ensures
            final(self).wf(),
            final(self).is_with_prev_layer(old(self), layer@),
    {
        let ghost before = *self;
        self.prev_l = layer;
        proof {
            self.lemma_same_arena_wf(&before);
        }
    }
}

/// Two sequences that share no element and repeat none still do so after
/// an element that is in neither was added at the end of one of them.
pub proof fn lemma_no_duplicates_insert(a: Seq<usize>, b: Seq<usize>, id: usize, first: bool)
    requires
        (a + b).no_duplicates(),
        forall|k: int| 0 <= k < (a + b).len() ==> (a + b)[k] != id,
    ensures
        first ==> (a.push(id) + b).no_duplicates(),
        !first ==> (a + b.push(id)).no_duplicates(),
{
    if first {
        let s = a.push(id) + b;
        assert forall|i: int, j: int| 0 <= i < s.len() && 0 <= j < s.len() && i != j implies s[i]
            != s[j] by {
            let oi = if i < a.len() {
                i
            } else {
                i - 1
            };
            let oj = if j < a.len() {
                j
            } else {
                j - 1
            };
            if i != a.len() {
                assert(s[i] == (a + b)[oi]);
            }
            if j != a.len() {
                assert(s[j] == (a + b)[oj]);
            }
        }
    } else {
        let s = a + b.push(id);
        assert forall|i: int, j: int| 0 <= i < s.len() && 0 <= j < s.len() && i != j implies s[i]
            != s[j] by {
            if i < s.len() - 1 {
                assert(s[i] == (a + b)[i]);
            }
            if j < s.len() - 1 {
                assert(s[j] == (a + b)[j]);
            }
        }
    }
}

} // verus!
