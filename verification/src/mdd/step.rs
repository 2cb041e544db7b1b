//! One step of the compilation: the development of one layer for the
//! variable that the problem named.

use crate::abstraction::{CompilationInput, Cutoff, Problem, Relaxation, StateRanking};
use crate::common::Variable;
use crate::mdd::arena::WithLongArcs;
use crate::mdd::branch::prunes;
use std::hash::Hash;
use std::sync::Arc;
use vstd::prelude::*;
use vstd::std_specs::hash::obeys_key_model;

verus! {

impl<T: Eq + Hash> WithLongArcs<T> {
    /// Says that `self` is the diagram `before` after one more layer was
    /// developed for `variable` at `depth`, and that `layer` holds the nodes
    /// of that layer, when `last` holds those of the layer before it. The
    /// layer under construction is split; the nodes that the variable
    /// impacts are kept within the maximum width; they and then the others
    /// make up the layer; every node of the arena is settled; and the nodes
    /// of the layer are developed one after the other.
    pub open spec fn is_layer_of<P, R, K, C>(
        &self,
        before: &Self,
        input: &CompilationInput<P, R, K, C>,
        variable: Variable,
        depth: usize,
        last: Seq<usize>,
        layer: Seq<usize>,
    ) -> bool where
        P: Problem<State = T>,
        R: Relaxation<State = T>,
        K: StateRanking<State = T>,
        C: Cutoff,
     {
        exists|
            turned: Self,
            split: Self,
            shrunk: Self,
            settled: Self,
            impacted: Seq<usize>,
            others: Seq<usize>,
            kept: Seq<usize>,
            steps: Seq<Self>,
        |
            {
                &&& turned.is_with_prev_layer(before, last)
                &&& #[trigger] split.is_split_of(&turned, input.problem, variable, impacted, others)
                &&& impacted.len() + others.len() > 0
                &&& #[trigger] shrunk.is_width_controlled(
                    &split,
                    input.comp_type,
                    input.relaxation,
                    input.ranking,
                    input.max_width,
                    depth,
                    impacted,
                    kept,
                )
                &&& layer == kept + others
                &&& #[trigger] settled.is_settled_from(&shrunk)
                &&& #[trigger] Self::is_run_of_expansions(
                    steps,
                    input.problem,
                    input.relaxation,
                    input.best_lb,
                    variable,
                    layer,
                )
                &&& steps[0] == settled
                &&& steps.last() == *self
            }
    }

    /// Says that `self` is the diagram `before` after its layer under
    /// construction, which was empty, was split for `variable`, when `last`
    /// holds the nodes of the layer that was developed last.
    pub open spec fn is_last_split_of<P: Problem<State = T>>(
        &self,
        before: &Self,
        problem: &P,
        variable: Variable,
        last: Seq<usize>,
    ) -> bool {
        exists|turned: Self|
            {
                &&& #[trigger] turned.is_with_prev_layer(before, last)
                &&& self.is_split_of(
                    &turned,
                    problem,
                    variable,
                    Seq::<usize>::empty(),
                    Seq::<usize>::empty(),
                )
            }
    }

    /// Develops one more layer, for `variable`, at `depth`. The layer that
    /// was developed last becomes the previous layer, and the layer under
    /// construction is split. If it held no node, nothing else happens and
    /// there is no new layer. Otherwise the nodes that the variable impacts
    /// are kept within the maximum width, the others join them, and every
    /// node of the layer that results is developed.
    pub fn develop_layer<P, R, K, C>(
        &mut self,
        input: &CompilationInput<P, R, K, C>,
        variable: Variable,
        depth: usize,
        last: Vec<usize>,
    ) -> (layer: Option<Vec<usize>>) where
        P: Problem<State = T>,
        R: Relaxation<State = T>,
        K: StateRanking<State = T>,
        C: Cutoff,

        requires
            obeys_key_model::<T>(),
            input.comp_type is Relaxed ==> input.max_width >= 1,
            old(self).compiling(input.comp_type, &input.residual, depth),
            forall|i: int| 0 <= i < last@.len() ==> #[trigger] last@[i] < old(self).nodes@.len(),
        ensures
            final(self).wf(),
            old(self).nodes@.len() <= final(self).nodes@.len(),
            layer is Some <==> old(self).next_l@ != (Map::<Arc<T>, usize>::empty()),
            final(self).nodes@.len() == old(self).nodes@.len() ==> final(self).next_l@ == (Map::<
                Arc<T>,
                usize,
            >::empty()),
            match layer {
                Some(nodes) => {
                    &&& final(self).is_layer_of(old(self), input, variable, depth, last@, nodes@)
                    &&& forall|i: int|
                        0 <= i < nodes@.len() ==> #[trigger] nodes@[i] < final(self).nodes@.len()
                    &&& final(self).compiling(input.comp_type, &input.residual, 1)
                },
                None => {
                    &&& final(self).is_last_split_of(old(self), input.problem, variable, last@)
                    &&& final(self).compiling(input.comp_type, &input.residual, depth)
                },
            },
            prunes(input.relaxation, &*input.residual.state, input.residual.value, input.best_lb)
                && old(self).is_root_only() && (depth > 0 ==> old(self).next_l@ == (Map::<
                Arc<T>,
                usize,
            >::empty())) ==> final(self).is_root_only() && final(self).next_l@ == (Map::<
                Arc<T>,
                usize,
            >::empty()),
            old(self).faithful(input.problem) ==> final(self).faithful(input.problem),
            !(input.comp_type is Relaxed) && old(self).all_exact() ==> final(self).all_exact(),
    {
        let ghost head = *self;
        self.set_prev_layer(last);
        let ghost turned = *self;
        let (mut curr_l, mut long_arc) = self.split_frontier(input.problem, variable);
        let ghost split = *self;
        let ghost impacted = curr_l@;
        let ghost others = long_arc@;
        proof {
            if head.faithful(input.problem) {
                turned.lemma_same_arena_faithful(&head, input.problem);
                split.lemma_same_arena_faithful(&turned, input.problem);
            }
            assert(head.all_exact() ==> split.all_exact()) by {
                if head.all_exact() {
                    assert forall|n: int| 0 <= n < split.nodes@.len() implies (
                    #[trigger] split.nodes@[n]).flags.exact() by {
                        assert(head.nodes@[n].flags.exact());
                    }
                }
            }
        }
        if curr_l.is_empty() && long_arc.is_empty() {
            proof {
                assert(impacted =~= Seq::<usize>::empty());
                assert(others =~= Seq::<usize>::empty());
            }
            return None;
        }
        proof {
            assert forall|i: int| 0 <= i < curr_l@.len() implies self.settled@
                <= #[trigger] curr_l@[i] < self.nodes@.len() by {
                assert(turned.in_last_layer(curr_l@[i] as int));
            }
            assert forall|i: int| 0 <= i < long_arc@.len() implies self.settled@
                <= #[trigger] long_arc@[i] < self.nodes@.len() by {
                assert(turned.in_last_layer(long_arc@[i] as int));
            }
            let both = curr_l@ + long_arc@;
            assert forall|i: int, j: int|
                0 <= i < curr_l@.len() && 0 <= j < curr_l@.len() && i != j implies curr_l@[i]
                != curr_l@[j] by {
                assert(both[i] == curr_l@[i] && both[j] == curr_l@[j]);
            }
        }
        self.control_width(
            input.comp_type,
            input.relaxation,
            input.ranking,
            input.max_width,
            depth,
            &mut curr_l,
        );
        let ghost kept = curr_l@;
        curr_l.append(&mut long_arc);
        let ghost shrunk = *self;
        proof {
            shrunk.lemma_width_control_keeps_faithful(
                &split,
                input.problem,
                input.comp_type,
                input.relaxation,
                input.ranking,
                input.max_width,
                depth,
                impacted,
                kept,
            );
            assert(shrunk.has_root(&input.residual)) by {
                if depth > 0 {
                    assert(shrunk.keeps_settled(&split));
                }
            }
            if prunes(input.relaxation, &*input.residual.state, input.residual.value, input.best_lb)
                && head.is_root_only() && (depth > 0 ==> head.next_l@ == (Map::<
                Arc<T>,
                usize,
            >::empty())) {
                assert(depth == 0);
                assert(shrunk.is_root_only());
                assert forall|i: int| 0 <= i < curr_l@.len() implies #[trigger] curr_l@[i] == 0 by {
                    if i < kept.len() {
                        assert(kept[i] == curr_l@[i]);
                    } else {
                        assert(others[i - kept.len()] == curr_l@[i]);
                    }
                }
                assert(shrunk.all_pruned(input.relaxation, input.best_lb, curr_l@));
            }
        }
        self.settle();
        let ghost settled = *self;
        proof {
            assert(settled.unbounded()) by {
                assert(split.unbounded());
                assert(shrunk.unbounded());
            }
            if shrunk.faithful(input.problem) {
                settled.lemma_same_arena_faithful(&shrunk, input.problem);
            }
            if shrunk.all_exact() {
                assert forall|n: int| 0 <= n < settled.nodes@.len() implies (
                #[trigger] settled.nodes@[n]).flags.exact() by {
                    assert(shrunk.nodes@[n].flags.exact());
                }
            }
        }
        self.branch_layer(input.problem, input.relaxation, input.best_lb, variable, &curr_l);
        proof {
            assert(head.next_l@ != (Map::<Arc<T>, usize>::empty()));
            assert(head.nodes@.len() <= shrunk.nodes@.len() <= self.nodes@.len());
            if self.nodes@.len() == head.nodes@.len() {
                assert(self.next_l@ == settled.next_l@);
            }
            let steps = choose|steps: Seq<Self>|
                {
                    &&& #[trigger] Self::is_run_of_expansions(
                        steps,
                        input.problem,
                        input.relaxation,
                        input.best_lb,
                        variable,
                        curr_l@,
                    )
                    &&& steps[0] == settled
                    &&& steps.last() == *self
                };
            assert(split.is_split_of(&turned, input.problem, variable, impacted, others));
            assert(shrunk.is_width_controlled(
                &split,
                input.comp_type,
                input.relaxation,
                input.ranking,
                input.max_width,
                depth,
                impacted,
                kept,
            ));
            assert(settled.is_settled_from(&shrunk));
            assert(self.is_layer_of(&head, input, variable, depth, last@, curr_l@));
        }
        Some(curr_l)
    }
}

} // verus!
