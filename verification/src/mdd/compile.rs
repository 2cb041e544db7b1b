//! The compilation: layer after layer until the problem names no variable
//! any more, a layer is empty or the cutoff stops it; and what a run of
//! layers is.

use crate::abstraction::{CompilationInput, Cutoff, Problem, Relaxation, StateRanking};
use crate::common::{CompilationType, Completion, Reason, SubProblem, Variable};
use crate::mdd::arena::WithLongArcs;
use crate::mdd::branch::prunes;
use std::hash::Hash;
use std::sync::Arc;
use vstd::prelude::*;
use vstd::std_specs::hash::obeys_key_model;

verus! {

impl<T: Eq + Hash> WithLongArcs<T> {
    /// Says what holds of the diagram between two layers of a compilation
    /// of the given kind for the given path to its root.
    pub open spec fn compiling(
        &self,
        comp_type: CompilationType,
        residual: &SubProblem<T>,
        depth: usize,
    ) -> bool {
        &&& self.wf()
        &&& self.unbounded()
        &&& self.root_pa@ == residual.path@
        &&& self.best_n is None
        &&& self.exact
        &&& comp_type is Exact ==> self.lel is None
        &&& self.has_root(residual)
        &&& depth > 0 ==> self.settled@ >= 1
    }

    /// Says that the first node of the arena is the root of the diagram:
    /// it has the state and the value of the residual subproblem.
    pub open spec fn has_root(&self, residual: &SubProblem<T>) -> bool {
        &&& self.nodes@.len() >= 1
        &&& self.nodes@[0].state == residual.state
        &&& self.nodes@[0].value == residual.value
        &&& self.nodes@[0].best is None
    }

    /// Says that the diagram is its root alone: one node and no edge.
    pub open spec fn is_root_only(&self) -> bool {
        &&& self.nodes@.len() == 1
        &&& self.edges@.len() == 0
    }

    /// The depth of the layer that is developed after `count` others, held
    /// to the range of `usize`.
    pub open spec fn depth_after(count: int) -> usize {
        if count <= usize::MAX {
            count as usize
        } else {
            usize::MAX
        }
    }

    /// Says that `layers` are the diagrams of a compilation after each of
    /// its layers, from the root on, `variables` the variables that the
    /// layers were developed for, and `nodes` the nodes of each layer:
    /// before each layer the problem, asked for the next variable, named the
    /// variable of that layer, and the cutoff did not stop the compilation.
    pub open spec fn is_run_of_layers<P, R, K, C>(
        layers: Seq<Self>,
        nodes: Seq<Seq<usize>>,
        variables: Seq<Variable>,
        input: &CompilationInput<P, R, K, C>,
    ) -> bool where
        P: Problem<State = T>,
        R: Relaxation<State = T>,
        K: StateRanking<State = T>,
        C: Cutoff,
     {
        &&& layers.len() == variables.len() + 1
        &&& nodes.len() == layers.len()
        &&& nodes[0] == Seq::<usize>::empty()
        &&& layers[0].is_rooted_at(&input.residual)
        &&& layers[0].is_start()
        &&& forall|i: int|
            0 <= i < variables.len() ==> {
                &&& layers[i].is_asked(input.problem, Some(#[trigger] variables[i]))
                &&& call_ensures(C::must_stop, (input.cutoff,), false)
                &&& layers[i + 1].is_layer_of(
                    &layers[i],
                    input,
                    variables[i],
                    Self::depth_after(i),
                    nodes[i],
                    nodes[i + 1],
                )
            }
    }

    /// Says that the diagram holds nothing beyond its arena and its layer
    /// under construction, and counts as exact.
    pub open spec fn is_start(&self) -> bool {
        &&& self.prev_l@.len() == 0
        &&& self.lel is None
        &&& self.best_n is None
        &&& self.exact
        &&& self.settled@ == 0
    }

    /// Says how a compilation that ran through `layers` came to its end
    /// with the diagram `self`. Where it failed, the problem had named one
    /// more variable and the cutoff stopped it, with the diagram as it was
    /// after the last layer. Where it completed, the problem named no
    /// variable any more, or named one for which the layer under
    /// construction held no node; and the diagram was finished.
    pub open spec fn is_end_of_run<P, R, K, C>(
        &self,
        layers: Seq<Self>,
        nodes: Seq<Seq<usize>>,
        input: &CompilationInput<P, R, K, C>,
        failed: bool,
    ) -> bool where
        P: Problem<State = T>,
        R: Relaxation<State = T>,
        K: StateRanking<State = T>,
        C: Cutoff,
     {
        if failed {
            &&& *self == layers.last()
            &&& exists|variable: Variable| #[trigger]
                layers.last().is_asked(input.problem, Some(variable))
            &&& call_ensures(C::must_stop, (input.cutoff,), true)
        } else {
            exists|stopped: Self|
                {
                    &&& #[trigger] self.is_finished_from(&stopped, input.comp_type)
                    &&& stopped.is_stop_of_run(layers, nodes, input)
                }
        }
    }

    /// Says that `self` is the diagram with which a compilation that ran
    /// through `layers` stopped developing layers: the diagram after the
    /// last layer, for which the problem named no variable; or that diagram
    /// with its layer under construction split for one more variable that
    /// the problem named, the cutoff not stopping it, when that layer held
    /// no node.
    pub open spec fn is_stop_of_run<P, R, K, C>(
        &self,
        layers: Seq<Self>,
        nodes: Seq<Seq<usize>>,
        input: &CompilationInput<P, R, K, C>,
    ) -> bool where
        P: Problem<State = T>,
        R: Relaxation<State = T>,
        K: StateRanking<State = T>,
        C: Cutoff,
     {
        ||| *self == layers.last() && layers.last().is_asked(input.problem, None)
        ||| exists|variable: Variable|
            {
                &&& #[trigger] layers.last().is_asked(input.problem, Some(variable))
                &&& call_ensures(C::must_stop, (input.cutoff,), false)
                &&& self.is_last_split_of(&layers.last(), input.problem, variable, nodes.last())
            }
    }

    /// Compiles the diagram of the residual subproblem of `input`. Layer
    /// after layer, the problem names the variable to branch on; the nodes
    /// of the layer whose state the variable impacts are kept within the
    /// maximum width in the way of the compilation; then every node of the
    /// layer branches on the variable, unless its rough upper bound prunes
    /// it. The compilation ends when the problem names no variable or a
    /// layer is empty, and fails when the cutoff tells it to stop, which it
    /// is asked once for every variable.
    pub fn compile<P, R, K, C>(&mut self, input: &CompilationInput<P, R, K, C>) -> (result: Result<
        Completion,
        Reason,
    >) where
        P: Problem<State = T>,
        R: Relaxation<State = T>,
        K: StateRanking<State = T>,
        C: Cutoff,

        requires
            obeys_key_model::<T>(),
            input.comp_type is Relaxed ==> input.max_width >= 1,
        ensures
            final(self).wf(),
            final(self).root_pa@ == input.residual.path@,
            final(self).has_root(&input.residual),
            input.comp_type is Exact ==> final(self).lel is None,
            result matches Ok(completion) ==> {
                &&& completion.is_exact == final(self).exact
                &&& completion.best_value == final(self).best_value_spec()
                &&& final(self).best_is_longest()
                &&& final(self).exact == final(self).is_exact_spec(input.comp_type)
                &&& input.comp_type is Relaxed && !final(self).exact ==> final(self).marks_closed()
            },
            result matches Err(reason) ==> reason == Reason::CutoffOccurred,
            exists|layers: Seq<Self>, nodes: Seq<Seq<usize>>, variables: Seq<Variable>|
                {
                    &&& #[trigger] Self::is_run_of_layers(layers, nodes, variables, input)
                    &&& final(self).is_end_of_run(layers, nodes, input, result is Err)
                },
            always_stops(input.cutoff) && crate::mdd::layer::always_proposes(input.problem)
                ==> result is Err,
            never_stops(input.cutoff) ==> result is Ok,
            prunes(input.relaxation, &*input.residual.state, input.residual.value, input.best_lb)
                ==> final(self).is_root_only(),
            final(self).faithful(input.problem),
            !(input.comp_type is Relaxed) ==> final(self).all_exact(),
    {
        self.clear();
        self.init_root(&input.residual);
        proof {
            assert(self.inbound_edges(0) =~= Seq::<usize>::empty());
            assert(self.faithful_at(input.problem, 0));
        }
        let mut depth: usize = 0;
        let mut last: Vec<usize> = Vec::new();
        let ghost mut layers: Seq<Self> = seq![*self];
        let ghost mut nodes: Seq<Seq<usize>> = seq![Seq::<usize>::empty()];
        let ghost mut variables: Seq<Variable> = Seq::empty();
        let ghost mut stopped: Self = *self;
        loop
            invariant_except_break
                forall|i: int| 0 <= i < last@.len() ==> #[trigger] last@[i] < self.nodes@.len(),
                layers.last() == *self,
                nodes.last() == last@,
                depth == Self::depth_after(variables.len() as int),
            invariant
                obeys_key_model::<T>(),
                input.comp_type is Relaxed ==> input.max_width >= 1,
                self.compiling(input.comp_type, &input.residual, depth),
                prunes(
                    input.relaxation,
                    &*input.residual.state,
                    input.residual.value,
                    input.best_lb,
                ) ==> self.is_root_only() && (depth > 0 ==> self.next_l@ == (Map::<
                    Arc<T>,
                    usize,
                >::empty())),
                Self::is_run_of_layers(layers, nodes, variables, input),
                self.faithful(input.problem),
                !(input.comp_type is Relaxed) ==> self.all_exact(),
            ensures
                !(always_stops(input.cutoff) && crate::mdd::layer::always_proposes(input.problem)),
                stopped == *self,
                stopped.is_stop_of_run(layers, nodes, input),
            decreases
                usize::MAX - self.nodes.len(),
                (if self.next_l@ == (Map::<Arc<T>, usize>::empty()) {
                    0int
                } else {
                    1int
                }),
        {
            let ghost head = *self;
            let variable = match self.next_variable(input.problem) {
                Some(variable) => variable,
                None => {
                    proof {
                        stopped = *self;
                    }
                    break ;
                },
            };
            if input.cutoff.must_stop() {
                proof {
                    assert(self.is_end_of_run(layers, nodes, input, true));
                }
                return Err(Reason::CutoffOccurred);
            }
            let ghost before = last@;
            match self.develop_layer(input, variable, depth, last) {
                Some(layer) => {
                    proof {
                        let longer = layers.push(*self);
                        let more = nodes.push(layer@);
                        let named = variables.push(variable);
                        assert forall|i: int| 0 <= i < named.len() implies {
                            &&& longer[i].is_asked(input.problem, Some(#[trigger] named[i]))
                            &&& call_ensures(C::must_stop, (input.cutoff,), false)
                            &&& longer[i + 1].is_layer_of(
                                &longer[i],
                                input,
                                named[i],
                                Self::depth_after(i),
                                more[i],
                                more[i + 1],
                            )
                        } by {
                            if i < variables.len() {
                                assert(named[i] == variables[i]);
                                assert(longer[i] == layers[i] && longer[i + 1] == layers[i + 1]);
                                assert(more[i] == nodes[i] && more[i + 1] == nodes[i + 1]);
                            } else {
                                assert(longer[i] == head && longer[i + 1] == *self);
                                assert(more[i] == before && more[i + 1] == layer@);
                            }
                        }
                        layers = longer;
                        nodes = more;
                        variables = named;
                    }
                    last = layer;
                    depth = depth.saturating_add(1);
                },
                None => {
                    proof {
                        stopped = *self;
                    }
                    break ;
                },
            }
        }
        self.finish(input.comp_type);
        let best_value = self.best_value();
        proof {
            self.lemma_finish_keeps_faithful(&stopped, input.problem, input.comp_type);
            assert(self.is_finished_from(&stopped, input.comp_type));
            assert(self.is_end_of_run(layers, nodes, input, false));
        }
        Ok(Completion { is_exact: self.exact, best_value })
    }
}

/// Says that the cutoff tells the compilation to stop whenever it is asked.
pub open spec fn always_stops<C: Cutoff>(cutoff: &C) -> bool {
    forall|stop: bool| call_ensures(C::must_stop, (cutoff,), stop) ==> stop
}

/// Says that the cutoff never tells the compilation to stop.
pub open spec fn never_stops<C: Cutoff>(cutoff: &C) -> bool {
    forall|stop: bool| call_ensures(C::must_stop, (cutoff,), stop) ==> !stop
}

} // verus!
