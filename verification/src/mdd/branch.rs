//! Branching from the nodes of a layer, each pruned against the best known
//! value by its rough upper bound.

use crate::abstraction::{DecisionCallback, Problem, Relaxation};
use crate::common::{sat_add, sat_add_spec, Decision, Variable};
use crate::mdd::arena::{Node, WithLongArcs};
use std::hash::Hash;
use std::sync::Arc;
use vstd::prelude::*;
use vstd::std_specs::hash::obeys_key_model;

verus! {

/// Says that two nodes differ at most in their rough upper bound.
pub open spec fn same_but_rub<T>(now: Node<T>, was: Node<T>) -> bool {
    &&& now.state == was.state
    &&& now.value == was.value
    &&& now.value_bot == was.value_bot
    &&& now.best == was.best
    &&& now.inbound == was.inbound
    &&& now.flags == was.flags
}

/// Says that the rough upper bound prunes a node with the given state and
/// value: whatever bound the relaxation gives for the state, that bound plus
/// the value is not above `best_lb`.
pub open spec fn prunes<R: Relaxation>(
    relaxation: &R,
    state: &R::State,
    value: isize,
    best_lb: isize,
) -> bool {
    forall|rub: isize| #[trigger]
        call_ensures(R::fast_upper_bound, (relaxation, state), rub) ==> sat_add_spec(rub, value)
            <= best_lb
}

/// Asks the problem for the decisions of the domain of `variable` in `state`
/// and hands them back in the order in which the problem applied them.
pub fn offered_decisions<P: Problem>(problem: &P, variable: Variable, state: &P::State) -> (decisions:
    Vec<Decision>)
    ensures
        exists|callback: &mut DecisionCallback|
            {
                &&& #[trigger] call_ensures(
                    P::for_each_in_domain,
                    (problem, variable, state, callback),
                    (),
                )
                &&& callback.decisions@.len() == 0
                &&& final(callback).decisions@ == decisions@
            },
{
    let mut callback = DecisionCallback::new();
    problem.for_each_in_domain(variable, state, &mut callback);
    callback.decisions
}

/// Says that `decisions` are the decisions that the problem offered, in
/// their order, when it was asked for the domain of `variable` in `state`.
pub open spec fn offers<P: Problem>(
    problem: &P,
    variable: Variable,
    state: &P::State,
    decisions: Seq<Decision>,
) -> bool {
    exists|offered: Vec<Decision>|
        {
            &&& #[trigger] call_ensures(offered_decisions::<P>, (problem, variable, state), offered)
            &&& offered@ == decisions
        }
}

impl<T: Eq + Hash> WithLongArcs<T> {
    /// Says that `self` came from `before` by steps that only add to the
    /// arena or rewrite nodes in ways that keep what the compilation relies
    /// on: the arena did not shrink, a step that added no node left the
    /// layer under construction alone, and no node was marked or given a
    /// length below it if none was before.
    pub open spec fn grown_from(&self, before: &Self) -> bool {
        &&& self.same_frame(before)
        &&& before.nodes@.len() <= self.nodes@.len()
        &&& before.edges@.len() <= self.edges@.len()
        &&& self.nodes@.len() == before.nodes@.len() ==> self.next_l@ == before.next_l@
        &&& before.unbounded() ==> self.unbounded()
        &&& self.keeps_settled(before)
    }

    /// Says that every node that was settled in `before` has in `self` the
    /// state, the value and the edges that it had.
    pub open spec fn keeps_settled(&self, before: &Self) -> bool {
        forall|n: int|
            0 <= n < before.settled@ && n < before.nodes@.len() && n < self.nodes@.len() ==> {
                &&& (#[trigger] self.nodes@[n]).state == before.nodes@[n].state
                &&& self.nodes@[n].value == before.nodes@[n].value
                &&& self.nodes@[n].best == before.nodes@[n].best
                &&& self.nodes@[n].inbound == before.nodes@[n].inbound
            }
    }

    /// Says that `self` differs from `before` at most in rough upper bounds
    /// of its nodes.
    pub open spec fn only_bounds_differ(&self, before: &Self) -> bool {
        &&& self.same_frame(before)
        &&& self.edges@ == before.edges@
        &&& self.next_l@ == before.next_l@
        &&& self.nodes@.len() == before.nodes@.len()
        &&& forall|n: int|
            0 <= n < self.nodes@.len() ==> same_but_rub(#[trigger] self.nodes@[n], before.nodes@[n])
    }

    /// Recording a transition grows the diagram.
    pub proof fn lemma_transition_grows(
        &self,
        before: &Self,
        from: usize,
        decision: Decision,
        next: Arc<T>,
        cost: isize,
    )
        requires
            before.wf(),
            from < before.settled@,
            self.is_after_transition(before, from, decision, next, cost),
        ensures
            self.grown_from(before),
    {
        if before.unbounded() {
            assert forall|n: int| 0 <= n < self.nodes@.len() implies !(
            #[trigger] self.nodes@[n]).flags.marked() && self.nodes@[n].value_bot == isize::MIN by {
                if n < before.nodes@.len() {
                    assert(!before.nodes@[n].flags.marked());
                }
                assert(!before.nodes@[from as int].flags.marked());
            }
        }
    }

    /// Says that `self` is `before` with the rough upper bound of node `id`
    /// replaced by `rub`.
    pub open spec fn is_after_bound(&self, before: &Self, id: usize, rub: isize) -> bool {
        &&& self.same_frame(before)
        &&& self.edges@ == before.edges@
        &&& self.next_l@ == before.next_l@
        &&& self.nodes@ == before.nodes@.update(id as int, self.nodes@[id as int])
        &&& same_but_rub(self.nodes@[id as int], before.nodes@[id as int])
        &&& self.nodes@[id as int].rub == rub
    }

    /// Replaces the rough upper bound of a node.
    pub fn set_rub(&mut self, id: usize, rub: isize)
        requires
            old(self).wf(),
            id < old(self).nodes@.len(),
        ensures
            final(self).wf(),
            final(self).is_after_bound(old(self), id, rub),
            final(self).grown_from(old(self)),
    {
        let ghost before = *self;
        self.nodes[id].rub = rub;
        proof {
            assert(self.nodes@ =~= before.nodes@.update(id as int, self.nodes@[id as int]));
            self.lemma_same_shape_wf(&before);
            if before.unbounded() {
                assert forall|n: int| 0 <= n < self.nodes@.len() implies !(
                #[trigger] self.nodes@[n]).flags.marked() && self.nodes@[n].value_bot
                    == isize::MIN by {
                    assert(!before.nodes@[n].flags.marked());
                }
            }
        }
    }

    /// Says that each of `steps` but the first is the one before it after a
    /// transition from node `id`, whose state is `state`, by the decision of
    /// `decisions` at the same place, to the state and at the cost that the
    /// problem gives for it.
    pub open spec fn is_run_of_transitions<P: Problem<State = T>>(
        steps: Seq<Self>,
        problem: &P,
        state: &T,
        id: usize,
        decisions: Seq<Decision>,
    ) -> bool {
        &&& steps.len() == decisions.len() + 1
        &&& forall|i: int|
            0 <= i < decisions.len() ==> steps[i + 1].is_after_branch(
                &steps[i],
                problem,
                state,
                id,
                #[trigger] decisions[i],
            )
    }

    /// The diagram after the settled node `id` was developed, when `before`
    /// is the diagram before it. The node has the rough upper bound that the
    /// relaxation gave for its state. Where that bound plus the value of the
    /// node is not above `best_lb`, nothing else differs. Otherwise the
    /// diagram came about by one transition from the node for each of the
    /// decisions that the problem offered for `variable` in the state of the
    /// node, in their order.
    pub open spec fn is_expansion_of<P: Problem<State = T>, R: Relaxation<State = T>>(
        &self,
        before: &Self,
        problem: &P,
        relaxation: &R,
        best_lb: isize,
        variable: Variable,
        id: usize,
    ) -> bool {
        exists|rub: isize, decisions: Seq<Decision>| #[trigger]
            self.is_expansion_with(
                before,
                problem,
                relaxation,
                best_lb,
                variable,
                id,
                rub,
                decisions,
            )
    }

    /// The diagram after the settled node `id` was developed with the rough
    /// upper bound `rub` and, unless that bound pruned it, by the decisions
    /// `decisions`, which the problem offered for `variable`, when `before`
    /// is the diagram before it.
    pub open spec fn is_expansion_with<P: Problem<State = T>, R: Relaxation<State = T>>(
        &self,
        before: &Self,
        problem: &P,
        relaxation: &R,
        best_lb: isize,
        variable: Variable,
        id: usize,
        rub: isize,
        decisions: Seq<Decision>,
    ) -> bool {
        &&& call_ensures(R::fast_upper_bound, (relaxation, &*before.nodes@[id as int].state), rub)
        &&& self.nodes@[id as int].rub == rub
        &&& if sat_add_spec(rub, before.nodes@[id as int].value) <= best_lb {
            self.is_after_bound(before, id, rub)
        } else {
            exists|steps: Seq<Self>|
                {
                    &&& offers(problem, variable, &*before.nodes@[id as int].state, decisions)
                    &&& #[trigger] Self::is_run_of_transitions(
                        steps,
                        problem,
                        &*before.nodes@[id as int].state,
                        id,
                        decisions,
                    )
                    &&& steps[0].is_after_bound(before, id, rub)
                    &&& steps.last() == *self
                }
        }
    }

    /// Develops one settled node of the layer for `variable`. The
    /// relaxation gives the rough upper bound of its state, which the node
    /// keeps. Where that bound plus the value of the node is not above
    /// `best_lb`, nothing else happens: the node is pruned. Otherwise the
    /// node branches on every decision that the problem offers for the
    /// variable in its state.
    pub fn expand_node<P: Problem<State = T>, R: Relaxation<State = T>>(
        &mut self,
        problem: &P,
        relaxation: &R,
        best_lb: isize,
        variable: Variable,
        id: usize,
    )
        requires
            obeys_key_model::<T>(),
            old(self).wf(),
            id < old(self).settled@,
        ensures
            final(self).wf(),
            final(self).grown_from(old(self)),
            final(self).is_expansion_of(old(self), problem, relaxation, best_lb, variable, id),
            old(self).faithful(problem) ==> final(self).faithful(problem),
            old(self).all_exact() ==> final(self).all_exact(),
            prunes(
                relaxation,
                &*old(self).nodes@[id as int].state,
                old(self).nodes@[id as int].value,
                best_lb,
            ) ==> final(self).only_bounds_differ(old(self)),
    {
        let ghost before = *self;
        let state = self.nodes[id].state.clone();
        let rub = relaxation.fast_upper_bound(&*state);
        self.set_rub(id, rub);
        proof {
            if before.faithful(problem) {
                self.lemma_same_arena_faithful(&before, problem);
            }
            if before.all_exact() {
                assert forall|n: int| 0 <= n < self.nodes@.len() implies (
                #[trigger] self.nodes@[n]).flags.exact() by {
                    assert(before.nodes@[n].flags.exact());
                }
            }
        }
        let ub = sat_add(rub, self.nodes[id].value);
        if ub > best_lb {
            let ghost bounded = *self;
            let ghost mut steps: Seq<Self> = seq![bounded];
            let decisions = offered_decisions(problem, variable, &*state);
            let mut i: usize = 0;
            while i < decisions.len()
                invariant
                    obeys_key_model::<T>(),
                    i <= decisions@.len(),
                    bounded.wf(),
                    self.wf(),
                    id < self.settled@,
                    self.grown_from(&bounded),
                    self.nodes@.len() > id,
                    self.nodes@[id as int].rub == rub,
                    self.nodes@[id as int].state == state,
                    before.faithful(problem) ==> self.faithful(problem),
                    before.all_exact() ==> self.all_exact(),
                    steps.len() == i + 1,
                    steps[0] == bounded,
                    steps.last() == *self,
                    Self::is_run_of_transitions(
                        steps,
                        problem,
                        &*state,
                        id,
                        decisions@.take(i as int),
                    ),
                decreases decisions@.len() - i,
            {
                let ghost during = *self;
                let ghost run = steps;
                self.branch_on(&*state, id, decisions[i], problem);
                proof {
                    steps = steps.push(*self);
                    let taken = decisions@.take(i as int);
                    let more = decisions@.take(i + 1);
                    assert forall|j: int| 0 <= j < more.len() implies steps[j + 1].is_after_branch(
                        &steps[j],
                        problem,
                        &*state,
                        id,
                        #[trigger] more[j],
                    ) by {
                        if j < i {
                            assert(more[j] == taken[j]);
                            assert(steps[j + 1] == run[j + 1] && steps[j] == run[j]);
                            assert(run[j + 1].is_after_branch(&run[j], problem, &*state, id, taken[j]));
                        } else {
                            assert(steps[j] == during && steps[j + 1] == *self);
                            assert(more[j] == decisions@[i as int]);
                        }
                    }
                    assert(Self::is_run_of_transitions(steps, problem, &*state, id, more));
                    let (next, cost) = choose|next: T, cost: isize|
                        {
                            &&& call_ensures(
                                P::transition,
                                (problem, &*state, decisions@[i as int]),
                                next,
                            )
                            &&& call_ensures(
                                P::transition_cost,
                                (problem, &*state, decisions@[i as int]),
                                cost,
                            )
                            &&& #[trigger] self.is_after_transition(
                                &during,
                                id,
                                decisions@[i as int],
                                Arc::new(next),
                                cost,
                            )
                        };
                    self.lemma_transition_grows(
                        &during,
                        id,
                        decisions@[i as int],
                        Arc::new(next),
                        cost,
                    );
                    assert(during.node_wf(id as int));
                    if during.next_l@.contains_key(Arc::new(next)) {
                        assert(during.next_l@[Arc::new(next)] >= during.settled@);
                    }
                }
                i += 1;
            }
            proof {
                assert(decisions@.take(decisions@.len() as int) =~= decisions@);
                assert(Self::is_run_of_transitions(
                    steps,
                    problem,
                    &*before.nodes@[id as int].state,
                    id,
                    decisions@,
                ));
                assert(offers(problem, variable, &*before.nodes@[id as int].state, decisions@));
                assert(self.is_expansion_with(
                    &before,
                    problem,
                    relaxation,
                    best_lb,
                    variable,
                    id,
                    rub,
                    decisions@,
                ));
            }
        } else {
            proof {
                assert(self.is_expansion_with(
                    &before,
                    problem,
                    relaxation,
                    best_lb,
                    variable,
                    id,
                    rub,
                    Seq::<Decision>::empty(),
                ));
            }
        }
    }

    /// Develops a layer of settled nodes for `variable`, one node after the
    /// other.
    pub fn branch_layer<P: Problem<State = T>, R: Relaxation<State = T>>(
        &mut self,
        problem: &P,
        relaxation: &R,
        best_lb: isize,
        variable: Variable,
        layer: &Vec<usize>,
    )
        requires
            obeys_key_model::<T>(),
            old(self).wf(),
            forall|i: int| 0 <= i < layer@.len() ==> #[trigger] layer@[i] < old(self).settled@,
        ensures
            final(self).wf(),
            final(self).grown_from(old(self)),
            old(self).all_pruned(relaxation, best_lb, layer@) ==> final(self).only_bounds_differ(
                old(self),
            ),
            old(self).faithful(problem) ==> final(self).faithful(problem),
            old(self).all_exact() ==> final(self).all_exact(),
            exists|steps: Seq<Self>|
                {
                    &&& #[trigger] Self::is_run_of_expansions(
                        steps,
                        problem,
                        relaxation,
                        best_lb,
                        variable,
                        layer@,
                    )
                    &&& steps[0] == *old(self)
                    &&& steps.last() == *final(self)
                },
    {
        let ghost before = *self;
        let ghost mut steps: Seq<Self> = seq![before];
        let mut i: usize = 0;
        while i < layer.len()
            invariant
                obeys_key_model::<T>(),
                i <= layer@.len(),
                before.wf(),
                self.wf(),
                self.grown_from(&before),
                forall|k: int| 0 <= k < layer@.len() ==> #[trigger] layer@[k] < before.settled@,
                before.all_pruned(relaxation, best_lb, layer@) ==> self.only_bounds_differ(&before),
                before.faithful(problem) ==> self.faithful(problem),
                before.all_exact() ==> self.all_exact(),
                steps.len() == i + 1,
                steps[0] == before,
                steps.last() == *self,
                Self::is_run_of_expansions(
                    steps,
                    problem,
                    relaxation,
                    best_lb,
                    variable,
                    layer@.take(i as int),
                ),
            decreases layer@.len() - i,
        {
            let ghost during = *self;
            let ghost run = steps;
            self.expand_node(problem, relaxation, best_lb, variable, layer[i]);
            proof {
                steps = steps.push(*self);
                let taken = layer@.take(i as int);
                let more = layer@.take(i + 1);
                assert forall|j: int| 0 <= j < more.len() implies steps[j + 1].is_expansion_of(
                    &steps[j],
                    problem,
                    relaxation,
                    best_lb,
                    variable,
                    #[trigger] more[j],
                ) by {
                    if j < i {
                        assert(more[j] == taken[j]);
                        assert(steps[j + 1] == run[j + 1] && steps[j] == run[j]);
                        assert(run[j + 1].is_expansion_of(
                            &run[j],
                            problem,
                            relaxation,
                            best_lb,
                            variable,
                            taken[j],
                        ));
                    } else {
                        assert(steps[j] == during && steps[j + 1] == *self);
                        assert(more[j] == layer@[i as int]);
                    }
                }
            }
            proof {
                if before.all_pruned(relaxation, best_lb, layer@) {
                    assert(same_but_rub(
                        during.nodes@[layer@[i as int] as int],
                        before.nodes@[layer@[i as int] as int],
                    ));
                    assert forall|n: int| 0 <= n < self.nodes@.len() implies same_but_rub(
                        #[trigger] self.nodes@[n],
                        before.nodes@[n],
                    ) by {
                        assert(same_but_rub(self.nodes@[n], during.nodes@[n]));
                        assert(same_but_rub(during.nodes@[n], before.nodes@[n]));
                    }
                }
            }
            i += 1;
        }
        proof {
            assert(layer@.take(layer@.len() as int) =~= layer@);
        }
    }

    /// Says that each of `steps` but the first is the one before it after
    /// the node of `layer` at the same place was developed.
    pub open spec fn is_run_of_expansions<P: Problem<State = T>, R: Relaxation<State = T>>(
        steps: Seq<Self>,
        problem: &P,
        relaxation: &R,
        best_lb: isize,
        variable: Variable,
        layer: Seq<usize>,
    ) -> bool {
        &&& steps.len() == layer.len() + 1
        &&& forall|i: int|
            0 <= i < layer.len() ==> steps[i + 1].is_expansion_of(
                &steps[i],
                problem,
                relaxation,
                best_lb,
                variable,
                #[trigger] layer[i],
            )
    }

    /// Says that the rough upper bound prunes every node of `layer`.
    pub open spec fn all_pruned<R: Relaxation<State = T>>(
        &self,
        relaxation: &R,
        best_lb: isize,
        layer: Seq<usize>,
    ) -> bool {
        forall|i: int|
            0 <= i < layer.len() ==> prunes(
                relaxation,
                &*self.nodes@[#[trigger] layer[i] as int].state,
                self.nodes@[layer[i] as int].value,
                best_lb,
            )
    }
}

} // verus!
