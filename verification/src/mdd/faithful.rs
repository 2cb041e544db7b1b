//! What ties a diagram to its problem: the edges that enter a node that is
//! not relaxed are transitions of the problem.

use crate::abstraction::Problem;
use crate::mdd::arena::{lemma_chain_ids, WithLongArcs};
use std::hash::Hash;
use vstd::prelude::*;

verus! {

impl<T: Eq + Hash> WithLongArcs<T> {
    /// Says that edge `e`, which enters node `n`, is a transition of the
    /// problem: for the decision of the edge in the state of its source,
    /// the problem gave the state of `n` and the cost of the edge.
    pub open spec fn is_transition_edge<P: Problem<State = T>>(
        &self,
        problem: &P,
        n: int,
        e: int,
    ) -> bool {
        let edge = self.edges@[e];
        &&& call_ensures(
            P::transition,
            (problem, &*self.nodes@[edge.from as int].state, edge.decision),
            *self.nodes@[n].state,
        )
        &&& call_ensures(
            P::transition_cost,
            (problem, &*self.nodes@[edge.from as int].state, edge.decision),
            edge.cost,
        )
    }

    /// Says that every edge that enters node `n` is a transition of the
    /// problem, unless `n` is relaxed.
    pub open spec fn faithful_at<P: Problem<State = T>>(&self, problem: &P, n: int) -> bool {
        !self.nodes@[n].flags.relaxed() ==> forall|k: int|
            0 <= k < self.inbound_edges(n).len() ==> self.is_transition_edge(
                problem,
                n,
                #[trigger] self.inbound_edges(n)[k] as int,
            )
    }

    /// Says that the diagram is faithful to the problem: every edge that
    /// enters a node that is not relaxed is a transition of the problem.
    pub open spec fn faithful<P: Problem<State = T>>(&self, problem: &P) -> bool {
        forall|n: int| 0 <= n < self.nodes@.len() ==> #[trigger] self.faithful_at(problem, n)
    }

    /// Says that every node of the diagram is exact.
    pub open spec fn all_exact(&self) -> bool {
        forall|n: int| 0 <= n < self.nodes@.len() ==> (#[trigger] self.nodes@[n]).flags.exact()
    }

    /// A node that is as it was in a faithful diagram which `self` extends
    /// is still entered by transitions of the problem only.
    pub proof fn lemma_kept_faithful<P: Problem<State = T>>(
        &self,
        before: &Self,
        problem: &P,
        n: int,
    )
        requires
            before.wf(),
            before.faithful(problem),
            self.extends(before),
            0 <= n < before.nodes@.len(),
            self.kept(before, n),
        ensures
            self.faithful_at(problem, n),
    {
        self.lemma_kept_inbound(before, n);
        assert(before.faithful_at(problem, n));
        if !self.nodes@[n].flags.relaxed() {
            let chain = before.inbound_edges(n);
            assert forall|k: int| 0 <= k < chain.len() implies self.is_transition_edge(
                problem,
                n,
                #[trigger] self.inbound_edges(n)[k] as int,
            ) by {
                lemma_chain_ids(before.edges@, before.nodes@[n].inbound, k);
                assert(before.edge_wf(chain[k] as int));
                assert(self.kept(before, before.edges@[chain[k] as int].from as int));
                assert(before.is_transition_edge(problem, n, before.inbound_edges(n)[k] as int));
            }
        }
    }

    /// A diagram that extends a faithful one is faithful if each of its
    /// nodes is as it was, or is relaxed, or is entered by transitions of
    /// the problem only.
    pub proof fn lemma_extends_faithful<P: Problem<State = T>>(&self, before: &Self, problem: &P)
        requires
            before.wf(),
            before.faithful(problem),
            self.extends(before),
            forall|n: int|
                0 <= n < before.nodes@.len() ==> #[trigger] self.kept(before, n) || self.faithful_at(
                    problem,
                    n,
                ),
            forall|n: int|
                before.nodes@.len() <= n < self.nodes@.len() ==> #[trigger] self.faithful_at(
                    problem,
                    n,
                ),
        ensures
            self.faithful(problem),
    {
        assert forall|n: int| 0 <= n < self.nodes@.len() implies #[trigger] self.faithful_at(
            problem,
            n,
        ) by {
            if n < before.nodes@.len() && self.kept(before, n) {
                self.lemma_kept_faithful(before, problem, n);
            }
        }
    }

    /// A diagram whose arena differs from that of a faithful one at most in
    /// fields that the invariant does not speak of is faithful.
    pub proof fn lemma_same_arena_faithful<P: Problem<State = T>>(&self, before: &Self, problem: &P)
        requires
            before.wf(),
            before.faithful(problem),
            self.same_arena(before) || (self.nodes@ == before.nodes@ && self.edges@ == before.edges@
                && before.settled@ <= self.settled@ <= self.nodes@.len()),
        ensures
            self.faithful(problem),
            before.all_exact() ==> self.all_exact(),
    {
        assert forall|n: int| 0 <= n < before.nodes@.len() implies #[trigger] self.kept(before, n) by {}
        self.lemma_extends_faithful(before, problem);
        if before.all_exact() {
            assert forall|n: int| 0 <= n < self.nodes@.len() implies (
            #[trigger] self.nodes@[n]).flags.exact() by {
                assert(before.nodes@[n].flags.exact());
            }
        }
    }
}

} // verus!
