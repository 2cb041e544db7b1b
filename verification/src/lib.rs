//! Compilation of decision diagrams for discrete optimization.
//!
//! A decision diagram is a layered acyclic graph whose paths from the root to
//! the last layer stand for solutions of a maximization problem. This crate
//! compiles one diagram at a time for a residual subproblem: exactly;
//! restricted to a maximum width, which yields a lower bound; or relaxed to a
//! maximum width, which yields an upper bound together with an exact cutset
//! whose subproblems remain to be explored.
//!
//! The diagram is [`WithLongArcs`]. It is told about the problem through the
//! traits of [`abstraction`]: nothing is assumed of their implementations,
//! and every contract says what holds whatever they answer.
//!
//! The states of the problem are compared and hashed by their own `Eq` and
//! `Hash`. The functions that look states up require that the state type
//! follows the key model of `vstd` (`obeys_key_model`): equal states are the
//! same value and hash alike. `vstd` grants this of the primitive types; for
//! a state type of one's own it is an assumption to state.
//!
//! - [`common`]: decisions, subproblems, saturating sums.
//! - [`flags`]: the flag word of a node.
//! - [`ranking`]: the outcome of comparing two states.
//! - [`abstraction`]: problem, relaxation, ranking, cutoff.
//! - [`index`]: the index of a layer by state.
//! - [`mdd`]: the diagram and the steps of its compilation.
//! - [`laws`]: what holds of every well-formed diagram.

pub mod abstraction;
pub mod common;
pub mod flags;
pub mod index;
pub mod laws;
pub mod mdd;
pub mod ranking;

pub use abstraction::{
    CompilationInput, Cutoff, DecisionCallback, NoCutoff, Problem, Relaxation, StateIter,
    StateRanking,
};
pub use common::{
    sat_add, sat_sub, CompilationType, Completion, Decision, Reason, SubProblem, Variable,
};
pub use flags::NodeFlags;
pub use mdd::arena::{Edge, Node, WithLongArcs};
pub use mdd::branch::offered_decisions;
pub use mdd::relax::merge_states;
pub use ranking::Rank;
