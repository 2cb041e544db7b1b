use ddo::{
    CompilationInput, CompilationType, Decision, DecisionCallback, NoCutoff, Problem, Rank,
    Relaxation, StateIter, StateRanking, SubProblem, Variable, WithLongArcs,
};
use std::sync::Arc;

/// States are numbers; every decision adds its value to the state and costs
/// ten times as much.
struct Adder;

impl Problem for Adder {
    type State = isize;

    fn next_variable(&self, next_layer: &mut StateIter<'_, isize>) -> Option<Variable> {
        let mut count = 0;
        while next_layer.next().is_some() {
            count += 1;
        }
        if count > 0 {
            Some(Variable(count))
        } else {
            None
        }
    }

    fn is_impacted_by(&self, _: Variable, state: &isize) -> bool {
        *state % 2 == 0
    }

    fn for_each_in_domain(&self, variable: Variable, _: &isize, f: &mut DecisionCallback) {
        f.apply(Decision { variable, value: 1 });
        f.apply(Decision { variable, value: 2 });
    }

    fn transition(&self, state: &isize, decision: Decision) -> isize {
        state + decision.value
    }

    fn transition_cost(&self, _: &isize, decision: Decision) -> isize {
        10 * decision.value
    }
}

/// Merges into the state given at construction; a redirected edge costs one
/// more than the edge it stands for.
struct MergeInto(isize);

impl Relaxation for MergeInto {
    type State = isize;

    fn merge(&self, _: &mut StateIter<'_, isize>) -> isize {
        self.0
    }

    fn relax(&self, _: &isize, _: &isize, _: &isize, _: Decision, cost: isize) -> isize {
        cost + 1
    }

    fn fast_upper_bound(&self, state: &isize) -> isize {
        100 + *state
    }
}

/// Ranks the greater number higher.
struct Greater;

impl StateRanking for Greater {
    type State = isize;

    fn compare(&self, a: &isize, b: &isize) -> Rank {
        Rank::of(a.cmp(b))
    }
}

fn decision(variable: usize, value: isize) -> Decision {
    Decision { variable: Variable(variable), value }
}

fn rooted(state: isize, value: isize) -> WithLongArcs<isize> {
    let mut dd = WithLongArcs::new();
    dd.init_root(&SubProblem {
        state: Arc::new(state),
        value,
        path: vec![decision(9, 9)],
        ub: 50,
    });
    dd
}

/// A diagram whose root is settled and whose layer under construction holds
/// the states 1, 2, 3 and 4 with the values 10, 20, 30 and 40, each entered
/// by one edge from the root.
fn one_layer() -> WithLongArcs<isize> {
    let mut dd = rooted(0, 0);
    dd.split_frontier(&Adder, Variable(0));
    dd.settle();
    for value in 1..=4 {
        dd.add_transition(0, decision(0, value), Arc::new(value), 10 * value);
    }
    dd
}

#[test]
fn a_new_diagram_is_empty_and_exact() {
    let dd = WithLongArcs::<isize>::new();
    assert!(dd.nodes.is_empty());
    assert!(dd.edges.is_empty());
    assert!(dd.root_pa.is_empty());
    assert!(dd.next_l.is_empty());
    assert!(dd.lel.is_none());
    assert!(dd.best_n.is_none());
    assert!(dd.is_exact());
    assert_eq!(dd.best_value(), None);
    assert_eq!(dd.best_solution(), None);
}

#[test]
fn the_default_diagram_is_a_new_one() {
    let dd = WithLongArcs::<isize>::default();
    assert!(dd.nodes.is_empty());
    assert!(dd.next_l.is_empty());
    assert!(dd.is_exact());
    assert_eq!(dd.best_value(), None);
}

#[test]
fn the_root_takes_state_value_path_and_bound_of_the_residual() {
    let dd = rooted(7, 30);
    assert_eq!(dd.nodes.len(), 1);
    assert_eq!(*dd.nodes[0].state, 7);
    assert_eq!(dd.nodes[0].value, 30);
    assert_eq!(dd.nodes[0].value_bot, isize::MIN);
    assert_eq!(dd.nodes[0].rub, 20);
    assert_eq!(dd.nodes[0].best, None);
    assert_eq!(dd.nodes[0].inbound, None);
    assert!(dd.nodes[0].flags.is_exact());
    assert!(!dd.nodes[0].flags.is_relaxed());
    assert_eq!(dd.root_pa, vec![decision(9, 9)]);
    assert_eq!(dd.next_l.get(&Arc::new(7)), Some(&0));
    assert_eq!(dd.next_l.len(), 1);
}

#[test]
fn the_rough_upper_bound_of_the_root_saturates() {
    let mut dd = WithLongArcs::new();
    dd.init_root(&SubProblem { state: Arc::new(0isize), value: -2, path: vec![], ub: isize::MAX });
    assert_eq!(dd.nodes[0].rub, isize::MAX);
}

#[test]
fn clearing_empties_the_diagram() {
    let mut dd = one_layer();
    dd.clear();
    assert!(dd.nodes.is_empty());
    assert!(dd.edges.is_empty());
    assert!(dd.root_pa.is_empty());
    assert!(dd.prev_l.is_empty());
    assert!(dd.next_l.is_empty());
    assert!(dd.lel.is_none());
    assert!(dd.best_n.is_none());
    assert!(dd.is_exact());
}

#[test]
fn splitting_empties_the_layer_and_parts_its_nodes() {
    let mut dd = one_layer();
    let (mut impacted, mut others) = dd.split_frontier(&Adder, Variable(1));
    impacted.sort();
    others.sort();
    assert_eq!(impacted, vec![2, 4]);
    assert_eq!(others, vec![1, 3]);
    assert!(dd.next_l.is_empty());
    assert_eq!(dd.nodes.len(), 5);
}

#[test]
fn the_problem_sees_every_state_of_the_layer() {
    let dd = one_layer();
    assert_eq!(dd.next_variable(&Adder), Some(Variable(4)));
    let empty = WithLongArcs::<isize>::new();
    assert_eq!(empty.next_variable(&Adder), None);
}

#[test]
fn a_transition_to_a_new_state_makes_a_node_with_the_flags_of_its_source() {
    let dd = one_layer();
    assert_eq!(dd.nodes.len(), 5);
    assert_eq!(dd.edges.len(), 4);
    let node = &dd.nodes[2];
    assert_eq!(*node.state, 2);
    assert_eq!(node.value, 20);
    assert_eq!(node.value_bot, isize::MIN);
    assert_eq!(node.rub, isize::MAX);
    assert_eq!(node.best, Some(1));
    assert_eq!(node.inbound, Some(1));
    assert!(node.flags.is_exact());
    let edge = dd.edges[1];
    assert_eq!(edge.from, 0);
    assert_eq!(edge.decision, decision(0, 2));
    assert_eq!(edge.cost, 20);
    assert_eq!(edge.next, None);
    assert_eq!(dd.next_l.get(&Arc::new(2)), Some(&2));
}

#[test]
fn a_transition_to_a_known_state_adds_an_edge_and_keeps_the_greater_value() {
    let mut dd = one_layer();
    // not better: the value and the best edge stay, the edge is listed
    dd.add_transition(0, decision(0, 7), Arc::new(2), 5);
    assert_eq!(dd.nodes.len(), 5);
    assert_eq!(dd.edges.len(), 5);
    assert_eq!(dd.nodes[2].value, 20);
    assert_eq!(dd.nodes[2].best, Some(1));
    assert_eq!(dd.nodes[2].inbound, Some(4));
    assert_eq!(dd.edges[4].next, Some(1));
    // equal: no strict gain, the best edge stays
    dd.add_transition(0, decision(0, 8), Arc::new(2), 20);
    assert_eq!(dd.nodes[2].value, 20);
    assert_eq!(dd.nodes[2].best, Some(1));
    assert_eq!(dd.nodes[2].inbound, Some(5));
    // better: the value and the best edge change
    dd.add_transition(0, decision(0, 9), Arc::new(2), 21);
    assert_eq!(dd.nodes[2].value, 21);
    assert_eq!(dd.nodes[2].best, Some(6));
    assert_eq!(dd.edges[6].next, Some(5));
    assert_eq!(dd.best_path_of(2), vec![decision(9, 9), decision(0, 9)]);
}

#[test]
fn a_node_stays_exact_only_if_all_its_sources_are() {
    let mut dd = one_layer();
    let (impacted, others) = dd.split_frontier(&Adder, Variable(1));
    assert_eq!(impacted.len() + others.len(), 4);
    dd.mark_merged(1);
    dd.settle();
    dd.add_transition(2, decision(1, 0), Arc::new(50), 1);
    assert!(dd.nodes[5].flags.is_exact());
    dd.add_transition(1, decision(1, 0), Arc::new(50), 1);
    assert!(!dd.nodes[5].flags.is_exact());
    assert!(!dd.nodes[5].flags.is_relaxed());
    // the best path of the node leads through the exact node 2
    assert!(dd.has_exact_best_path(Some(5)));
    dd.add_transition(1, decision(1, 0), Arc::new(51), 1);
    assert!(dd.nodes[6].flags.is_relaxed());
    assert!(!dd.has_exact_best_path(Some(6)));
    assert!(dd.has_exact_best_path(None));
}

#[test]
fn values_saturate_instead_of_overflowing() {
    let mut dd = rooted(0, isize::MAX - 1);
    dd.split_frontier(&Adder, Variable(0));
    dd.settle();
    dd.add_transition(0, decision(0, 1), Arc::new(1), 5);
    assert_eq!(dd.nodes[1].value, isize::MAX);
    dd.add_transition(0, decision(0, 1), Arc::new(2), isize::MIN);
    assert_eq!(dd.nodes[2].value, -2);
}

#[test]
fn branching_asks_the_problem_for_state_and_cost() {
    let mut dd = rooted(3, 1);
    dd.split_frontier(&Adder, Variable(0));
    dd.settle();
    dd.branch_on(&3, 0, decision(0, 2), &Adder);
    assert_eq!(*dd.nodes[1].state, 5);
    assert_eq!(dd.nodes[1].value, 21);
    assert_eq!(dd.edges[0].cost, 20);
    assert_eq!(dd.edges[0].decision, decision(0, 2));
}

#[test]
fn a_node_is_pruned_when_its_bound_does_not_exceed_the_best_known_value() {
    let mut dd = rooted(3, 1);
    dd.split_frontier(&Adder, Variable(0));
    dd.settle();
    // the bound of state 3 is 103, its value 1
    dd.expand_node(&Adder, &MergeInto(0), 104, Variable(0), 0);
    assert_eq!(dd.nodes.len(), 1);
    assert!(dd.edges.is_empty());
    assert!(dd.next_l.is_empty());
    assert_eq!(dd.nodes[0].rub, 103);
    dd.expand_node(&Adder, &MergeInto(0), 103, Variable(0), 0);
    assert_eq!(dd.nodes.len(), 3);
    assert_eq!(dd.edges.len(), 2);
    assert_eq!(*dd.nodes[1].state, 4);
    assert_eq!(dd.nodes[1].value, 11);
    assert_eq!(*dd.nodes[2].state, 5);
    assert_eq!(dd.nodes[2].value, 21);
}

#[test]
fn the_last_exact_layer_is_captured_once() {
    let mut dd = one_layer();
    dd.set_prev_layer(vec![0]);
    assert!(dd.maybe_save_lel());
    assert_eq!(dd.lel, Some(vec![0]));
    assert!(dd.nodes[0].flags.is_cutset());
    assert!(!dd.nodes[1].flags.is_cutset());
    dd.set_prev_layer(vec![1, 2]);
    assert!(!dd.maybe_save_lel());
    assert_eq!(dd.lel, Some(vec![0]));
    assert!(!dd.nodes[1].flags.is_cutset());
}

#[test]
fn a_layer_is_ordered_by_value_then_by_rank() {
    let mut dd = one_layer();
    dd.add_transition(0, decision(0, 5), Arc::new(9), 20);
    dd.add_transition(0, decision(0, 6), Arc::new(7), 20);
    // values: 1 -> 10, 2 -> 20, 3 -> 30, 4 -> 40, 5 (state 9) -> 20, 6 (state 7) -> 20
    let mut layer = vec![1, 2, 3, 4, 5, 6];
    dd.sort_layer(&Greater, &mut layer);
    assert_eq!(layer, vec![4, 3, 5, 6, 2, 1]);
    assert!(dd.goes_before(&Greater, 5, 6));
    assert!(!dd.goes_before(&Greater, 2, 6));
    assert!(dd.goes_before(&Greater, 3, 4) == false);
}

#[test]
fn of_two_nodes_that_rank_alike_the_first_stays_first() {
    struct Alike;
    impl StateRanking for Alike {
        type State = isize;

        fn compare(&self, _: &isize, _: &isize) -> Rank {
            Rank::Equal
        }
    }
    let mut dd = one_layer();
    dd.add_transition(0, decision(0, 5), Arc::new(9), 20);
    dd.add_transition(0, decision(0, 6), Arc::new(7), 20);
    let mut layer = vec![6, 1, 5, 4, 2, 3];
    dd.sort_layer(&Alike, &mut layer);
    assert_eq!(layer, vec![4, 3, 6, 5, 2, 1]);
    let merged = dd.merge_layers(&Alike, &vec![4, 6, 1], &vec![3, 5, 2]);
    assert_eq!(merged, vec![4, 3, 6, 5, 2, 1]);
    assert_eq!(dd.sorted_range(&Alike, &vec![1, 2, 3, 4], 1, 3), vec![3, 2]);
    assert!(dd.sorted_range(&Alike, &vec![1, 2, 3, 4], 2, 2).is_empty());
}

#[test]
fn restriction_keeps_the_most_promising_nodes() {
    let dd = one_layer();
    let mut layer = vec![1, 2, 3, 4];
    dd.restrict(&Greater, 2, &mut layer);
    assert_eq!(layer, vec![4, 3]);
    let mut layer = vec![1, 2];
    dd.restrict(&Greater, 5, &mut layer);
    assert_eq!(layer, vec![2, 1]);
    let mut layer = vec![1, 2];
    dd.restrict(&Greater, 0, &mut layer);
    assert!(layer.is_empty());
}

#[test]
fn relaxation_merges_the_tail_into_a_new_node() {
    let mut dd = one_layer();
    let (mut layer, mut others) = dd.split_frontier(&Adder, Variable(1));
    layer.append(&mut others);
    dd.relax(&MergeInto(77), &Greater, 3, &mut layer);
    // kept: 4 and 3; merged: 2 and 1, into the new node 5
    assert_eq!(layer, vec![4, 3, 5]);
    assert_eq!(dd.nodes.len(), 6);
    let merged = &dd.nodes[5];
    assert_eq!(*merged.state, 77);
    assert!(merged.flags.is_relaxed());
    assert!(!merged.flags.is_exact());
    // the edges into 2 and 1 are redirected, each one dearer by one
    assert_eq!(dd.edges.len(), 6);
    assert_eq!(dd.edges[4].from, 0);
    assert_eq!(dd.edges[4].cost, 21);
    assert_eq!(dd.edges[4].decision, decision(0, 2));
    assert_eq!(dd.edges[4].next, None);
    assert_eq!(dd.edges[5].cost, 11);
    assert_eq!(dd.edges[5].next, Some(4));
    assert_eq!(merged.value, 21);
    assert_eq!(merged.best, Some(4));
    assert_eq!(merged.inbound, Some(5));
    // the merged nodes themselves are left as they were
    assert_eq!(dd.nodes[2].value, 20);
    assert!(dd.nodes[2].flags.is_exact());
}

#[test]
fn relaxation_recycles_a_kept_node_that_stands_for_the_merged_state() {
    let mut dd = one_layer();
    let (mut layer, mut others) = dd.split_frontier(&Adder, Variable(1));
    layer.append(&mut others);
    dd.relax(&MergeInto(3), &Greater, 3, &mut layer);
    // node 3 stands for the merged state: no node is added, and the layer
    // keeps its first three nodes
    assert_eq!(layer, vec![4, 3, 2]);
    assert_eq!(dd.nodes.len(), 5);
    let merged = &dd.nodes[3];
    assert!(merged.flags.is_relaxed());
    assert!(!merged.flags.is_exact());
    assert_eq!(merged.value, 30);
    assert_eq!(merged.best, Some(2));
    assert_eq!(merged.inbound, Some(5));
    assert_eq!(dd.edges[4].cost, 21);
    assert_eq!(dd.edges[4].next, Some(2));
}

#[test]
fn of_two_equal_merge_contributions_the_later_wins() {
    let mut dd = one_layer();
    dd.add_transition(0, decision(0, 5), Arc::new(1), 10);
    let (mut layer, mut others) = dd.split_frontier(&Adder, Variable(1));
    layer.append(&mut others);
    dd.relax(&MergeInto(77), &Greater, 4, &mut layer);
    // only node 1 is merged; its two edges both reach 11; the one walked
    // last is the older one
    assert_eq!(layer, vec![4, 3, 2, 5]);
    assert_eq!(dd.nodes[5].value, 11);
    assert_eq!(dd.edges[5].decision, decision(0, 5));
    assert_eq!(dd.edges[6].decision, decision(0, 1));
    assert_eq!(dd.nodes[5].best, Some(6));
}

#[test]
fn width_control_leaves_an_exact_compilation_alone() {
    let mut dd = one_layer();
    let (mut layer, mut others) = dd.split_frontier(&Adder, Variable(1));
    layer.append(&mut others);
    let before = layer.clone();
    dd.control_width(CompilationType::Exact, &MergeInto(77), &Greater, 1, 5, &mut layer);
    assert_eq!(layer, before);
    assert!(dd.lel.is_none());
    assert_eq!(dd.nodes.len(), 5);
}

#[test]
fn width_control_restricts_and_captures_the_last_exact_layer() {
    let mut dd = one_layer();
    dd.set_prev_layer(vec![0]);
    let (mut layer, mut others) = dd.split_frontier(&Adder, Variable(1));
    layer.append(&mut others);
    dd.control_width(CompilationType::Restricted, &MergeInto(77), &Greater, 1, 0, &mut layer);
    assert_eq!(layer, vec![4]);
    assert_eq!(dd.lel, Some(vec![0]));
    assert_eq!(dd.nodes[4].rub, isize::MAX);
}

#[test]
fn width_control_never_relaxes_the_first_layer() {
    let mut dd = one_layer();
    dd.set_prev_layer(vec![0]);
    let (mut layer, mut others) = dd.split_frontier(&Adder, Variable(1));
    layer.append(&mut others);
    let before = layer.clone();
    dd.control_width(CompilationType::Relaxed, &MergeInto(77), &Greater, 1, 1, &mut layer);
    assert_eq!(layer, before);
    assert!(dd.lel.is_none());
    dd.control_width(CompilationType::Relaxed, &MergeInto(77), &Greater, 1, 2, &mut layer);
    assert_eq!(layer, vec![5]);
    assert_eq!(dd.lel, Some(vec![0]));
    // the nodes of the layer got their rough upper bound at the capture
    assert_eq!(dd.nodes[4].rub, 104);
    assert_eq!(dd.nodes[1].rub, 101);
    assert_eq!(dd.nodes[5].rub, isize::MAX);
}

#[test]
fn the_best_node_is_the_one_with_the_greatest_value() {
    let mut dd = one_layer();
    dd.find_best();
    assert_eq!(dd.best_n, Some(4));
    assert_eq!(dd.best_value(), Some(40));
    assert_eq!(dd.best_solution(), Some(vec![decision(9, 9), decision(0, 4)]));
    let mut empty = WithLongArcs::<isize>::new();
    empty.find_best();
    assert_eq!(empty.best_n, None);
}

#[test]
fn local_bounds_walk_up_from_the_last_layer_and_stop_at_the_cutset() {
    // 0 -> 1 -> 2 -> 3, and 0 -> 2 directly; node 1 is in the cutset
    let mut dd = rooted(0, 0);
    dd.split_frontier(&Adder, Variable(0));
    dd.settle();
    dd.add_transition(0, decision(0, 1), Arc::new(1), 5);
    dd.set_prev_layer(vec![0]);
    dd.split_frontier(&Adder, Variable(1));
    dd.settle();
    dd.add_transition(1, decision(1, 1), Arc::new(2), 7);
    dd.add_transition(0, decision(1, 2), Arc::new(2), 1);
    dd.set_prev_layer(vec![1]);
    dd.maybe_save_lel();
    dd.split_frontier(&Adder, Variable(2));
    dd.settle();
    dd.add_transition(2, decision(2, 1), Arc::new(3), 2);
    dd.exact = false;
    dd.compute_local_bounds();
    assert!(dd.nodes[3].flags.is_marked());
    assert_eq!(dd.nodes[3].value_bot, 0);
    assert!(dd.nodes[2].flags.is_marked());
    assert_eq!(dd.nodes[2].value_bot, 2);
    assert!(dd.nodes[1].flags.is_marked());
    assert_eq!(dd.nodes[1].value_bot, 9);
    // reached from node 2 directly; the walk did not go on from node 1
    assert!(dd.nodes[0].flags.is_marked());
    assert_eq!(dd.nodes[0].value_bot, 3);
}

#[test]
fn local_bounds_leave_an_exact_diagram_alone() {
    let mut dd = one_layer();
    dd.compute_local_bounds();
    assert!(!dd.nodes[1].flags.is_marked());
    assert_eq!(dd.nodes[1].value_bot, isize::MIN);
}

#[test]
fn an_offer_raises_the_length_below_the_source_and_marks_it() {
    let mut dd = one_layer();
    dd.nodes[2].value_bot = 4;
    assert!(dd.offer_below(2, 1));
    assert_eq!(dd.nodes[0].value_bot, 24);
    assert!(dd.nodes[0].flags.is_marked());
    dd.nodes[1].value_bot = 3;
    assert!(!dd.offer_below(1, 0));
    assert_eq!(dd.nodes[0].value_bot, 24);
}

#[test]
fn the_cutset_holds_the_marked_nodes_of_the_last_exact_layer() {
    let mut dd = one_layer();
    dd.set_prev_layer(vec![1, 2, 3]);
    dd.maybe_save_lel();
    dd.find_best();
    dd.nodes[1].flags.set_marked(true);
    dd.nodes[1].value_bot = 7;
    dd.nodes[1].rub = 100;
    dd.nodes[3].flags.set_marked(true);
    dd.nodes[3].value_bot = 20;
    dd.nodes[3].rub = 5;
    let cutset = dd.take_cutset();
    assert_eq!(cutset.len(), 2);
    assert_eq!(*cutset[0].state, 1);
    assert_eq!(cutset[0].value, 10);
    assert_eq!(cutset[0].path, vec![decision(9, 9), decision(0, 1)]);
    assert_eq!(cutset[0].ub, 17);
    assert_eq!(*cutset[1].state, 3);
    assert_eq!(cutset[1].ub, 35);
    assert_eq!(dd.lel, Some(vec![]));
    assert!(dd.take_cutset().is_empty());
}

#[test]
fn the_upper_bound_of_a_subproblem_never_exceeds_the_best_value() {
    let mut dd = one_layer();
    dd.set_prev_layer(vec![4]);
    dd.maybe_save_lel();
    dd.find_best();
    dd.nodes[4].flags.set_marked(true);
    dd.nodes[4].value_bot = 1000;
    let mut seen = vec![];
    dd.drain_cutset(|sub| seen.push(sub.ub));
    assert_eq!(seen, vec![40]);
}

#[test]
fn a_diagram_without_best_value_has_no_cutset() {
    let mut dd = one_layer();
    dd.set_prev_layer(vec![1, 2]);
    dd.maybe_save_lel();
    dd.nodes[1].flags.set_marked(true);
    assert!(dd.take_cutset().is_empty());
    assert_eq!(dd.lel, Some(vec![1, 2]));
}

#[test]
fn the_relaxation_is_shown_the_states_from_the_first_on() {
    struct First;
    impl Relaxation for First {
        type State = isize;

        fn merge(&self, states: &mut StateIter<'_, isize>) -> isize {
            let first = *states.next().unwrap();
            let mut count = 1;
            while states.next().is_some() {
                count += 1;
            }
            100 * first + count
        }

        fn relax(&self, _: &isize, _: &isize, _: &isize, _: Decision, cost: isize) -> isize {
            cost
        }
    }
    let states = vec![Arc::new(7), Arc::new(8), Arc::new(9)];
    assert_eq!(ddo::merge_states(&First, &states), 703);
}

#[test]
fn the_decisions_of_a_domain_come_in_the_order_of_the_problem() {
    assert_eq!(
        ddo::offered_decisions(&Adder, Variable(3), &0),
        vec![decision(3, 1), decision(3, 2)]
    );
}

#[test]
fn a_layer_is_developed_from_the_layer_under_construction() {
    let mut dd = rooted(0, 0);
    let input = CompilationInput {
        comp_type: CompilationType::Restricted,
        problem: &Adder,
        relaxation: &MergeInto(77),
        ranking: &Greater,
        cutoff: &NoCutoff,
        max_width: 1,
        best_lb: isize::MIN,
        residual: SubProblem { state: Arc::new(0), value: 0, path: vec![decision(9, 9)], ub: 50 },
    };
    // the root: one node, impacted, within the width
    let layer = dd.develop_layer(&input, Variable(0), 0, vec![]).unwrap();
    assert_eq!(layer, vec![0]);
    assert!(dd.prev_l.is_empty());
    assert!(dd.lel.is_none());
    assert_eq!(dd.nodes.len(), 3);
    assert_eq!(dd.nodes[0].rub, 100);
    // states 1 and 2: only state 2 is impacted; it alone is within the
    // width, state 1 joins it as it is
    let layer = dd.develop_layer(&input, Variable(1), 1, layer).unwrap();
    assert_eq!(dd.prev_l, vec![0]);
    assert!(dd.lel.is_none());
    assert_eq!(layer.len(), 2);
    assert_eq!(*dd.nodes[layer[0]].state, 2);
    assert_eq!(*dd.nodes[layer[1]].state, 1);
    // states 2, 3 and 4: 2 and 4 are impacted, one too many
    let before = dd.nodes.len();
    let layer = dd.develop_layer(&input, Variable(2), 2, layer.clone()).unwrap();
    assert_eq!(dd.lel, Some(dd.prev_l.clone()));
    assert_eq!(layer.len(), 2);
    assert_eq!(*dd.nodes[layer[0]].state, 4);
    assert_eq!(*dd.nodes[layer[1]].state, 3);
    assert!(dd.nodes.len() > before);
    // an empty layer under construction gives no layer
    let mut empty = WithLongArcs::<isize>::new();
    assert!(empty.develop_layer(&input, Variable(0), 0, vec![]).is_none());
}

#[test]
fn a_variable_is_named_by_its_index() {
    assert_eq!(Variable(12).id(), 12);
}

#[test]
fn a_rank_is_an_ordering() {
    assert_eq!(Rank::of(1.cmp(&2)), Rank::Less);
    assert_eq!(Rank::of(2.cmp(&1)), Rank::Greater);
    assert_eq!(Rank::of(2.cmp(&2)), Rank::Equal);
}
