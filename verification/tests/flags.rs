use ddo::{Decision, DecisionCallback, NodeFlags, Problem, Rank, StateIter, Variable, sat_add, sat_sub};
use std::sync::Arc;

struct Chain;

impl Problem for Chain {
    type State = usize;

    fn next_variable(&self, next_layer: &mut StateIter<'_, usize>) -> Option<Variable> {
        next_layer.next().copied().filter(|d| *d < 3).map(Variable)
    }

    fn for_each_in_domain(&self, variable: Variable, _: &usize, f: &mut DecisionCallback) {
        for value in 0..=2 {
            f.apply(Decision { variable, value });
        }
    }

    fn transition(&self, state: &usize, _: Decision) -> usize {
        state + 1
    }

    fn transition_cost(&self, _: &usize, decision: Decision) -> isize {
        decision.value
    }
}

#[test]
fn the_flags_are_independent() {
    let mut flags = NodeFlags::new_exact();
    assert!(flags.is_exact());
    flags.set_cutset(true);
    flags.set_exact(false);
    assert!(!flags.is_exact());
    assert!(flags.is_cutset());
    assert!(!flags.is_marked());
    assert!(!flags.is_relaxed());
}

#[test]
fn saturating_sums_stop_at_the_ends() {
    assert_eq!(sat_add(isize::MAX, 1), isize::MAX);
    assert_eq!(sat_add(isize::MIN, -1), isize::MIN);
    assert_eq!(sat_add(2, 3), 5);
    assert_eq!(sat_sub(isize::MIN, 1), isize::MIN);
    assert_eq!(sat_sub(isize::MAX, -1), isize::MAX);
    assert_eq!(sat_sub(2, 3), -1);
}

#[test]
fn a_problem_reads_the_layer_through_the_cursor() {
    let states = vec![Arc::new(1usize), Arc::new(2usize)];
    let mut cursor = StateIter::new(&states);
    assert_eq!(Chain.next_variable(&mut cursor), Some(Variable(1)));
    assert!(Chain.is_impacted_by(Variable(0), &1));
    let mut f = DecisionCallback::new();
    Chain.for_each_in_domain(Variable(1), &1, &mut f);
    assert_eq!(f.decisions.len(), 3);
    assert_eq!(Rank::of(1.cmp(&2)), Rank::Less);
}
