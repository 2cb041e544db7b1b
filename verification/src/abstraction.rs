//! What a compilation asks of its surroundings: the problem, its relaxation,
//! a ranking of states and a cutoff, together with the small types that carry
//! values to and from them.

use crate::common::{CompilationType, Decision, SubProblem, Variable};
use crate::ranking::Rank;
use std::sync::Arc;
use vstd::prelude::*;

verus! {

/// A cursor over the states of a layer, handed to the problem and to the
/// relaxation. It yields each state once, in the order of the layer.
pub struct StateIter<'a, T> {
    pub states: &'a Vec<Arc<T>>,
    pub position: usize,
}

impl<'a, T> StateIter<'a, T> {
    /// A cursor that stands before the first of `states`.
    pub fn new(states: &'a Vec<Arc<T>>) -> (cursor: StateIter<'a, T>)
        ensures
            cursor.states == states,
            cursor.position == 0,
    {
        StateIter { states, position: 0 }
    }

    /// The states that are still to come.
    pub open spec fn remaining(&self) -> Seq<Arc<T>> {
        if self.position <= self.states@.len() {
            self.states@.skip(self.position as int)
        } else {
            Seq::empty()
        }
    }

    /// The next state, if one is left.
    pub fn next(&mut self) -> (state: Option<&'a T>)
        ensures
            final(self).states == old(self).states,
            old(self).remaining().len() == 0 ==> state is None && final(self).position == old(
                self,
            ).position,
            old(self).remaining().len() > 0 ==> state == Some(&*old(self).remaining()[0])
                && final(self).remaining() == old(self).remaining().skip(1),
    {
        if self.position < self.states.len() {
            let state: &'a T = &*self.states[self.position];
            self.position = self.position + 1;
            proof {
                assert(final(self).remaining() =~= old(self).remaining().skip(1));
            }
            Some(state)
        } else {
            None
        }
    }
}

/// Collects the decisions that a problem offers for one variable in one
/// state, in the order in which they are applied.
pub struct DecisionCallback {
    pub decisions: Vec<Decision>,
}

impl DecisionCallback {
    /// A collector that holds no decision yet.
    pub fn new() -> (callback: DecisionCallback)
        ensures
            callback.decisions@.len() == 0,
    {
        DecisionCallback { decisions: Vec::new() }
    }

    /// Records one more decision.
    pub fn apply(&mut self, decision: Decision)
        ensures
            final(self).decisions@ == old(self).decisions@.push(decision),
    {
        self.decisions.push(decision);
    }
}

/// The discrete optimization problem, stated as a labelled transition system.
/// Nothing is assumed of an implementation: whatever its methods return is
/// taken as it comes.
pub trait Problem {
    /// The states of the transition system.
    type State;

    /// The variable to branch on next, given the states of the layer that is
    /// about to be developed; `None` ends the compilation.
    fn next_variable(&self, next_layer: &mut StateIter<'_, Self::State>) -> Option<Variable>;

    /// Tells whether the variable bears on the state. A state that is not
    /// impacted is exempt from the width limit of the layer. Unless a
    /// problem says otherwise, every variable bears on every state.
    fn is_impacted_by(&self, variable: Variable, state: &Self::State) -> (impacted: bool)
        default_ensures
            impacted,
    {
        true
    }

    /// Applies to `f` every decision that assigns a value of the variable's
    /// domain in this state.
    fn for_each_in_domain(&self, variable: Variable, state: &Self::State, f: &mut DecisionCallback);

    /// The state reached from `state` by `decision`.
    fn transition(&self, state: &Self::State, decision: Decision) -> Self::State;

    /// What `decision` taken in `state` adds to the objective.
    fn transition_cost(&self, state: &Self::State, decision: Decision) -> isize;
}

/// The relaxation of a problem: how states are merged and how good a state
/// can still become.
pub trait Relaxation {
    /// The states of the problem.
    type State;

    /// A state that stands for all the given ones.
    fn merge(&self, states: &mut StateIter<'_, Self::State>) -> Self::State;

    /// The cost of the edge that `decision` drew from `source` to
    /// `destination`, once it is redirected to the merged state.
    fn relax(
        &self,
        source: &Self::State,
        destination: &Self::State,
        merged: &Self::State,
        decision: Decision,
        cost: isize,
    ) -> isize;

    /// A rough upper bound on what can be added to the objective from
    /// `state` on. Unless a relaxation says otherwise, the bound is the
    /// greatest integer, which prunes nothing.
    fn fast_upper_bound(&self, state: &Self::State) -> (bound: isize)
        default_ensures
            bound == isize::MAX,
    {
        isize::MAX
    }
}

/// A ranking of states, which breaks ties between nodes of equal value when
/// a layer must shrink.
pub trait StateRanking {
    /// The states of the problem.
    type State;

    /// How `a` ranks against `b`.
    fn compare(&self, a: &Self::State, b: &Self::State) -> Rank;
}

/// A condition under which the compilation is to be abandoned.
pub trait Cutoff {
    /// Tells whether the compilation must stop now.
    fn must_stop(&self) -> bool;
}

/// The cutoff that never stops a compilation.
#[derive(Clone, Copy, Debug)]
pub struct NoCutoff;

impl Cutoff for NoCutoff {
    fn must_stop(&self) -> (stop: bool)
        ensures
            !stop,
    {
        false
    }
}

/// Everything one compilation needs.
pub struct CompilationInput<'a, P, R, K, C> where
    P: Problem,
    R: Relaxation<State = P::State>,
    K: StateRanking<State = P::State>,
    C: Cutoff,
 {
    /// How the diagram is compiled.
    pub comp_type: CompilationType,
    /// The problem.
    pub problem: &'a P,
    /// Its relaxation.
    pub relaxation: &'a R,
    /// The ranking that breaks ties when a layer must shrink.
    pub ranking: &'a K,
    /// The condition under which the compilation is abandoned.
    pub cutoff: &'a C,
    /// The widest a layer may be, where the compilation limits the width.
    pub max_width: usize,
    /// The value of the best solution known so far.
    pub best_lb: isize,
    /// The subproblem whose diagram is compiled.
    pub residual: SubProblem<P::State>,
}

} // verus!
