//! The building blocks of a layer: the root of the diagram and the
//! transitions out of a node, which find or make the node of the state that
//! is reached.

use crate::abstraction::Problem;
use crate::common::{max_spec, sat_add, sat_add_spec, sat_sub, sat_sub_spec, Decision, SubProblem};
use crate::flags::NodeFlags;
use crate::index::{index_get, index_insert};
use crate::mdd::arena::{Edge, Node, WithLongArcs};
use std::hash::Hash;
use std::sync::Arc;
use vstd::prelude::*;
use vstd::std_specs::hash::obeys_key_model;

verus! {

impl<T: Eq + Hash> WithLongArcs<T> {
    /// Says that `self` and `before` agree on everything but their nodes,
    /// their edges and the layer under construction.
    pub open spec fn same_frame(&self, before: &Self) -> bool {
        &&& self.root_pa@ == before.root_pa@
        &&& self.prev_l@ == before.prev_l@
        &&& self.lel == before.lel
        &&& self.best_n == before.best_n
        &&& self.exact == before.exact
        &&& self.settled@ == before.settled@
    }

    /// The diagram after the transition from settled node `from` by
    /// `decision`, at cost `cost`, to the state `next`, when `before` is the
    /// diagram before it. A state that the layer under construction does not
    /// hold yet gets a new node, which takes the flags of `from`; a state
    /// that it holds gets one more inbound edge, keeps the greater of its
    /// value and the value along the new edge, takes the new edge as its
    /// best only where that is a strict gain, and stays exact only if `from`
    /// is exact too.
    pub open spec fn is_after_transition(
        &self,
        before: &Self,
        from: usize,
        decision: Decision,
        next: Arc<T>,
        cost: isize,
    ) -> bool {
        let e = before.edges@.len();
        let reached = sat_add_spec(before.nodes@[from as int].value, cost);
        &&& self.same_frame(before)
        &&& if before.next_l@.contains_key(next) {
            let v = before.next_l@[next];
            let was = before.nodes@[v as int];
            let now = self.nodes@[v as int];
            &&& self.edges@ == before.edges@.push(
                (Edge { from, decision, cost, next: was.inbound }),
            )
            &&& self.nodes@ == before.nodes@.update(v as int, now)
            &&& self.next_l@ == before.next_l@
            &&& now.state == was.state
            &&& now.value_bot == was.value_bot
            &&& now.rub == was.rub
            &&& now.inbound == Some(e as usize)
            &&& now.value == max_spec(was.value, reached)
            &&& now.best == if reached > was.value {
                Some(e as usize)
            } else {
                was.best
            }
            &&& now.flags.exact() == (was.flags.exact() && before.nodes@[from as int].flags.exact())
            &&& now.flags.relaxed() == was.flags.relaxed()
            &&& now.flags.marked() == was.flags.marked()
            &&& now.flags.cutset() == was.flags.cutset()
        } else {
            &&& self.edges@ == before.edges@.push((Edge { from, decision, cost, next: None }))
            &&& self.nodes@ == before.nodes@.push(
                (Node {
                    state: next,
                    value: reached,
                    value_bot: isize::MIN,
                    best: Some(e as usize),
                    inbound: Some(e as usize),
                    rub: isize::MAX,
                    flags: before.nodes@[from as int].flags,
                }),
            )
            &&& self.next_l@ == before.next_l@.insert(next, before.nodes@.len() as usize)
        }
    }

    /// Says that the arena holds the root of the diagram of `residual` and
    /// nothing else: one node, exact, with the state and the value of the
    /// residual subproblem, alone in the layer under construction, and the
    /// path of the residual subproblem as the path to the root.
    pub open spec fn is_rooted_at(&self, residual: &SubProblem<T>) -> bool {
        &&& self.root_pa@ == residual.path@
        &&& self.edges@.len() == 0
        &&& self.nodes@.len() == 1
        &&& self.nodes@[0].state == residual.state
        &&& self.nodes@[0].value == residual.value
        &&& self.nodes@[0].value_bot == isize::MIN
        &&& self.nodes@[0].best is None
        &&& self.nodes@[0].inbound is None
        &&& self.nodes@[0].rub == sat_sub_spec(residual.ub, residual.value)
        &&& self.nodes@[0].flags.exact()
        &&& !self.nodes@[0].flags.relaxed()
        &&& !self.nodes@[0].flags.marked()
        &&& !self.nodes@[0].flags.cutset()
        &&& self.next_l@ == (Map::<Arc<T>, usize>::empty()).insert(residual.state, 0)
    }

    /// Makes the residual subproblem the root of an empty diagram: the only
    /// node, exact, alone in the layer under construction.
    pub fn init_root(&mut self, residual: &SubProblem<T>)
        requires
            obeys_key_model::<T>(),
            old(self).wf(),
            old(self).nodes@.len() == 0,
            old(self).edges@.len() == 0,
            old(self).root_pa@.len() == 0,
            old(self).next_l@ == (Map::<Arc<T>, usize>::empty()),
        ensures
            final(self).wf(),
            final(self).is_rooted_at(residual),
            final(self).prev_l@ == old(self).prev_l@,
            final(self).lel == old(self).lel,
            final(self).best_n == old(self).best_n,
            final(self).exact == old(self).exact,
            final(self).settled@ == old(self).settled@,
    {
        let mut i: usize = 0;
        while i < residual.path.len()
            invariant
                i <= residual.path@.len(),
                self.root_pa@ == residual.path@.take(i as int),
                self.nodes@.len() == 0,
                self.edges@.len() == 0,
                self.next_l@ == (Map::<Arc<T>, usize>::empty()),
                self.prev_l@ == old(self).prev_l@,
                self.lel == old(self).lel,
                self.best_n == old(self).best_n,
                self.exact == old(self).exact,
                self.settled@ == old(self).settled@,
                self.wf(),
            decreases residual.path@.len() - i,
        {
            self.root_pa.push(residual.path[i]);
            i += 1;
            assert(self.root_pa@ =~= residual.path@.take(i as int));
        }
        assert(residual.path@.take(residual.path@.len() as int) =~= residual.path@);
        let root = Node {
            state: residual.state.clone(),
            value: residual.value,
            value_bot: isize::MIN,
            best: None,
            inbound: None,
            rub: sat_sub(residual.ub, residual.value),
            flags: NodeFlags::new_exact(),
        };
        self.nodes.push(root);
        index_insert(&mut self.next_l, residual.state.clone(), 0);
        proof {
            assert(self.node_wf(0));
            assert(self.inbound_edges(0) =~= Seq::<usize>::empty());
            assert(self.inbound_wf(0));
        }
    }

    /// Records the transition from settled node `from_id` by `decision`, at
    /// cost `cost`, to the state `next`.
    pub fn add_transition(&mut self, from_id: usize, decision: Decision, next: Arc<T>, cost: isize)
        requires
            obeys_key_model::<T>(),
            old(self).wf(),
            from_id < old(self).settled@,
        ensures
            final(self).wf(),
            final(self).is_after_transition(old(self), from_id, decision, next, cost),
    {
        let ghost before = *self;
        let edge_id = self.edges.len();
        assert(self.node_wf(from_id as int));
        let reached = sat_add(self.nodes[from_id].value, cost);
        let from_flags = self.nodes[from_id].flags;
        match index_get(&self.next_l, &next) {
            None => {
                let node_id = self.nodes.len();
                self.edges.push(Edge { from: from_id, decision, cost, next: None });
                self.nodes.push(
                    Node {
                        state: next.clone(),
                        value: reached,
                        value_bot: isize::MIN,
                        best: Some(edge_id),
                        inbound: Some(edge_id),
                        rub: isize::MAX,
                        flags: from_flags,
                    },
                );
                index_insert(&mut self.next_l, next, node_id);
                proof {
                    assert(before.edges@.len() == before.edges.len());
                    assert(self.inbound_edges(node_id as int) =~= seq![edge_id]);
                    assert(self.node_wf(node_id as int));
                    assert(self.inbound_wf(node_id as int)) by {
                        if !self.nodes@[node_id as int].flags.relaxed() && self.sources_exact(
                            node_id as int,
                        ) {
                            assert(self.nodes@[self.edges@[self.inbound_edges(node_id as int)[0] as int].from as int].flags.exact());
                        }
                    }
                    assert forall|state: Arc<T>| #[trigger]
                        self.next_l@.contains_key(state) implies {
                        &&& self.settled@ <= self.next_l@[state] < self.nodes@.len()
                        &&& self.nodes@[self.next_l@[state] as int].state == state
                    } by {
                        if state != next {
                            assert(before.next_l@.contains_key(state));
                        }
                    }
                    self.lemma_extends_wf(&before);
                }
            },
            Some(node_id) => {
                assert(before.next_l@.contains_key(next));
                assert(before.node_wf(node_id as int));
                let inbound = self.nodes[node_id].inbound;
                self.edges.push(Edge { from: from_id, decision, cost, next: inbound });
                let mut flags = self.nodes[node_id].flags;
                let exact = from_flags.is_exact() && flags.is_exact();
                flags.set_exact(exact);
                self.nodes[node_id].flags = flags;
                self.nodes[node_id].inbound = Some(edge_id);
                if reached > self.nodes[node_id].value {
                    self.nodes[node_id].value = reached;
                    self.nodes[node_id].best = Some(edge_id);
                }
                proof {
                    assert(self.nodes@ =~= before.nodes@.update(
                        node_id as int,
                        self.nodes@[node_id as int],
                    ));
                    self.lemma_prepended_inbound(&before, node_id as int);
                    assert forall|state: Arc<T>| #[trigger]
                        self.next_l@.contains_key(state) implies {
                        &&& self.settled@ <= self.next_l@[state] < self.nodes@.len()
                        &&& self.nodes@[self.next_l@[state] as int].state == state
                    } by {
                        assert(before.next_l@.contains_key(state));
                    }
                    self.lemma_extends_wf(&before);
                }
            },
        }
    }

    /// The diagram after the settled node `from`, whose state is `state`,
    /// branched by `decision`, when `before` is the diagram before it: the
    /// diagram after the transition to the state and at the cost that the
    /// problem gave for that decision in that state.
    pub open spec fn is_after_branch<P: Problem<State = T>>(
        &self,
        before: &Self,
        problem: &P,
        state: &T,
        from: usize,
        decision: Decision,
    ) -> bool {
        exists|next: T, cost: isize|
            {
                &&& call_ensures(P::transition, (problem, state, decision), next)
                &&& call_ensures(P::transition_cost, (problem, state, decision), cost)
                &&& #[trigger] self.is_after_transition(before, from, decision, Arc::new(next), cost)
            }
    }

    /// Branches from settled node `from_id`, whose state is `state`, by
    /// `decision`: asks the problem for the state that is reached and for
    /// the cost, and records that transition.
    pub fn branch_on<P: Problem<State = T>>(
        &mut self,
        state: &T,
        from_id: usize,
        decision: Decision,
        problem: &P,
    )
        requires
            obeys_key_model::<T>(),
            old(self).wf(),
            from_id < old(self).settled@,
        ensures
            final(self).wf(),
            final(self).is_after_branch(old(self), problem, state, from_id, decision),
            *state == *old(self).nodes@[from_id as int].state && old(self).faithful(problem)
                ==> final(self).faithful(problem),
            old(self).all_exact() ==> final(self).all_exact(),
    {
        let ghost before = *self;
        let next = problem.transition(state, decision);
        let cost = problem.transition_cost(state, decision);
        let ghost reached = next;
        self.add_transition(from_id, decision, Arc::new(next), cost);
        proof {
            self.lemma_transition_keeps_faithful(
                &before,
                problem,
                from_id,
                decision,
                Arc::new(reached),
                cost,
            );
        }
    }

    /// Says that the problem gave the state `next` and the cost `cost` for
    /// `decision` in `state`.
    pub open spec fn gave<P: Problem<State = T>>(
        problem: &P,
        state: &T,
        decision: Decision,
        next: Arc<T>,
        cost: isize,
    ) -> bool {
        &&& call_ensures(P::transition, (problem, state, decision), *next)
        &&& call_ensures(P::transition_cost, (problem, state, decision), cost)
    }

    /// A transition that the problem gave keeps a faithful diagram
    /// faithful; and any transition keeps every node exact if every node
    /// was.
    pub proof fn lemma_transition_keeps_faithful<P: Problem<State = T>>(
        &self,
        before: &Self,
        problem: &P,
        from: usize,
        decision: Decision,
        next: Arc<T>,
        cost: isize,
    )
        requires
            before.wf(),
            from < before.settled@,
            self.is_after_transition(before, from, decision, next, cost),
        ensures
            before.all_exact() ==> self.all_exact(),
            before.faithful(problem) && Self::gave(
                problem,
                &*before.nodes@[from as int].state,
                decision,
                next,
                cost,
            ) ==> self.faithful(problem),
    {
        assert(before.edges@.len() == before.edges.len());
        assert(before.node_wf(from as int));
        let e = before.edges@.len() as usize;
        if before.next_l@.contains_key(next) {
            let v = before.next_l@[next] as int;
            assert(before.node_wf(v));
            self.lemma_prepended_inbound(before, v);
            assert forall|n: int| 0 <= n < before.nodes@.len() && n != v implies #[trigger] self.kept(
                before,
                n,
            ) by {}
            if before.all_exact() {
                assert forall|n: int| 0 <= n < self.nodes@.len() implies (
                #[trigger] self.nodes@[n]).flags.exact() by {
                    assert(before.nodes@[n].flags.exact());
                }
            }
            if before.faithful(problem) && Self::gave(
                problem,
                &*before.nodes@[from as int].state,
                decision,
                next,
                cost,
            ) {
                assert(self.faithful_at(problem, v)) by {
                    if !self.nodes@[v].flags.relaxed() {
                        assert(before.faithful_at(problem, v));
                        let chain = before.inbound_edges(v);
                        assert forall|k: int|
                            0 <= k < self.inbound_edges(v).len() implies self.is_transition_edge(
                            problem,
                            v,
                            #[trigger] self.inbound_edges(v)[k] as int,
                        ) by {
                            if k > 0 {
                                let id = chain[k - 1];
                                assert(self.inbound_edges(v)[k] == id);
                                crate::mdd::arena::lemma_chain_ids(
                                    before.edges@,
                                    before.nodes@[v].inbound,
                                    k - 1,
                                );
                                assert(before.edge_wf(id as int));
                                assert(before.is_transition_edge(
                                    problem,
                                    v,
                                    before.inbound_edges(v)[k - 1] as int,
                                ));
                            }
                        }
                    }
                }
                self.lemma_extends_faithful(before, problem);
            }
        } else {
            let n = before.nodes@.len() as int;
            assert(before.nodes@.len() == before.nodes.len());
            assert(self.inbound_edges(n) =~= seq![e]);
            assert forall|m: int| 0 <= m < before.nodes@.len() implies #[trigger] self.kept(
                before,
                m,
            ) by {}
            if before.all_exact() {
                assert forall|m: int| 0 <= m < self.nodes@.len() implies (
                #[trigger] self.nodes@[m]).flags.exact() by {
                    if m < before.nodes@.len() {
                        assert(before.nodes@[m].flags.exact());
                    } else {
                        assert(before.nodes@[from as int].flags.exact());
                    }
                }
            }
            if before.faithful(problem) && Self::gave(
                problem,
                &*before.nodes@[from as int].state,
                decision,
                next,
                cost,
            ) {
                assert(self.faithful_at(problem, n));
                self.lemma_extends_faithful(before, problem);
            }
        }
    }
}

} // verus!
