use ddo::{
    CompilationInput, CompilationType, Cutoff, Decision, DecisionCallback, NoCutoff, Problem,
    Rank, Reason, Relaxation, StateIter, StateRanking, SubProblem, Variable, WithLongArcs,
};
use std::cell::Cell;
use std::sync::Arc;

/// A knapsack of capacity ten: item `i` weighs `WEIGHTS[i]` and is worth
/// `PROFITS[i]`; a state is the remaining capacity and the next item.
const WEIGHTS: [isize; 5] = [4, 3, 5, 2, 6];
const PROFITS: [isize; 5] = [7, 5, 9, 3, 8];

#[derive(Debug, Clone, Copy, PartialEq, Eq, Hash)]
struct Sack {
    item: usize,
    capacity: isize,
}

struct Knapsack;

impl Problem for Knapsack {
    type State = Sack;

    fn next_variable(&self, next_layer: &mut StateIter<'_, Sack>) -> Option<Variable> {
        next_layer.next().map(|s| s.item).filter(|i| *i < 5).map(Variable)
    }

    fn for_each_in_domain(&self, variable: Variable, state: &Sack, f: &mut DecisionCallback) {
        f.apply(Decision { variable, value: 0 });
        if WEIGHTS[variable.id()] <= state.capacity {
            f.apply(Decision { variable, value: 1 });
        }
    }

    fn transition(&self, state: &Sack, decision: Decision) -> Sack {
        Sack {
            item: state.item + 1,
            capacity: state.capacity - decision.value * WEIGHTS[decision.variable.id()],
        }
    }

    fn transition_cost(&self, _: &Sack, decision: Decision) -> isize {
        decision.value * PROFITS[decision.variable.id()]
    }
}

struct KnapsackRelax;

impl Relaxation for KnapsackRelax {
    type State = Sack;

    fn merge(&self, states: &mut StateIter<'_, Sack>) -> Sack {
        let mut merged = Sack { item: 0, capacity: 0 };
        while let Some(state) = states.next() {
            merged.item = state.item;
            merged.capacity = merged.capacity.max(state.capacity);
        }
        merged
    }

    fn relax(&self, _: &Sack, _: &Sack, _: &Sack, _: Decision, cost: isize) -> isize {
        cost
    }

    fn fast_upper_bound(&self, state: &Sack) -> isize {
        PROFITS[state.item.min(5)..].iter().sum()
    }
}

struct MostCapacity;

impl StateRanking for MostCapacity {
    type State = Sack;

    fn compare(&self, a: &Sack, b: &Sack) -> Rank {
        Rank::of(a.capacity.cmp(&b.capacity))
    }
}

/// Stops the compilation at the given check, counted from one.
struct StopAt {
    check: usize,
    asked: Cell<usize>,
}

impl Cutoff for StopAt {
    fn must_stop(&self) -> bool {
        self.asked.set(self.asked.get() + 1);
        self.asked.get() >= self.check
    }
}

fn knapsack<'a, C: Cutoff>(
    comp_type: CompilationType,
    cutoff: &'a C,
    max_width: usize,
    best_lb: isize,
) -> CompilationInput<'a, Knapsack, KnapsackRelax, MostCapacity, C> {
    CompilationInput {
        comp_type,
        problem: &Knapsack,
        relaxation: &KnapsackRelax,
        ranking: &MostCapacity,
        cutoff,
        max_width,
        best_lb,
        residual: SubProblem {
            state: Arc::new(Sack { item: 0, capacity: 10 }),
            value: 0,
            path: vec![],
            ub: isize::MAX,
        },
    }
}

fn compiled(comp_type: CompilationType, max_width: usize) -> WithLongArcs<Sack> {
    let mut dd = WithLongArcs::new();
    assert!(dd.compile(&knapsack(comp_type, &NoCutoff, max_width, isize::MIN)).is_ok());
    dd
}

/// The costs of the decisions of a solution, added up.
fn worth(solution: &[Decision]) -> isize {
    solution.iter().map(|d| d.value * PROFITS[d.variable.id()]).sum()
}

#[test]
fn the_exact_diagram_finds_the_optimum() {
    let dd = compiled(CompilationType::Exact, usize::MAX);
    // items 1, 2 and 3 weigh ten and are worth seventeen
    assert_eq!(dd.best_value(), Some(17));
    assert!(dd.is_exact());
    assert!(dd.lel.is_none());
}

#[test]
fn an_exact_compilation_ignores_the_maximum_width() {
    let wide = compiled(CompilationType::Exact, usize::MAX);
    for width in [0, 1, 2, 3] {
        let narrow = compiled(CompilationType::Exact, width);
        assert_eq!(narrow.best_value(), wide.best_value());
        assert_eq!(narrow.nodes.len(), wide.nodes.len());
        assert_eq!(narrow.edges.len(), wide.edges.len());
        assert!(narrow.is_exact());
        assert!(narrow.lel.is_none());
    }
}

#[test]
fn the_best_value_is_what_the_best_solution_adds_up_to() {
    for comp_type in [CompilationType::Exact, CompilationType::Restricted, CompilationType::Relaxed] {
        for width in 1..6 {
            let dd = compiled(comp_type, width);
            let solution = dd.best_solution().unwrap();
            assert_eq!(Some(worth(&solution)), dd.best_value());
        }
    }
}

#[test]
fn the_value_of_every_node_is_that_of_its_best_edge() {
    let dd = compiled(CompilationType::Relaxed, 2);
    for node in dd.nodes.iter() {
        if let Some(best) = node.best {
            let edge = dd.edges[best];
            assert_eq!(node.value, dd.nodes[edge.from].value.saturating_add(edge.cost));
        }
    }
}

#[test]
fn the_best_solution_starts_with_the_path_to_the_root() {
    let prefix = vec![
        Decision { variable: Variable(0), value: 1 },
        Decision { variable: Variable(1), value: 0 },
    ];
    for comp_type in [CompilationType::Exact, CompilationType::Restricted, CompilationType::Relaxed] {
        let mut input = knapsack(comp_type, &NoCutoff, 2, isize::MIN);
        input.residual = SubProblem {
            state: Arc::new(Sack { item: 2, capacity: 6 }),
            value: 7,
            path: prefix.clone(),
            ub: isize::MAX,
        };
        let mut dd = WithLongArcs::new();
        assert!(dd.compile(&input).is_ok());
        let solution = dd.best_solution().unwrap();
        assert_eq!(&solution[..2], &prefix[..]);
        assert_eq!(solution.len(), 5);
        let mut cutset = vec![];
        dd.drain_cutset(|sub| cutset.push(sub));
        for sub in cutset {
            assert_eq!(&sub.path[..2], &prefix[..]);
        }
    }
}

#[test]
fn a_restricted_diagram_gives_a_lower_bound_and_a_relaxed_one_an_upper_bound() {
    let exact = compiled(CompilationType::Exact, usize::MAX).best_value().unwrap();
    for width in 1..8 {
        let restricted = compiled(CompilationType::Restricted, width).best_value().unwrap();
        let relaxed = compiled(CompilationType::Relaxed, width).best_value().unwrap();
        assert!(restricted <= exact);
        assert!(exact <= relaxed);
    }
    assert_eq!(compiled(CompilationType::Restricted, 1).best_value(), Some(15));
    assert_eq!(compiled(CompilationType::Relaxed, 1).best_value(), Some(32));
}

#[test]
fn a_diagram_is_exact_exactly_when_no_layer_had_to_shrink() {
    for width in 1..8 {
        let restricted = compiled(CompilationType::Restricted, width);
        assert_eq!(restricted.is_exact(), restricted.lel.is_none());
    }
    let narrow = compiled(CompilationType::Relaxed, 2);
    assert!(narrow.lel.is_some());
    assert_eq!(narrow.is_exact(), narrow.has_exact_best_path(narrow.best_n));
    let wide = compiled(CompilationType::Relaxed, 100);
    assert!(wide.lel.is_none());
    assert!(wide.is_exact());
}

#[test]
fn the_bounds_of_the_cutset_never_exceed_the_best_value() {
    for width in 1..6 {
        let mut dd = compiled(CompilationType::Relaxed, width);
        let best = dd.best_value().unwrap();
        let mut cutset = vec![];
        dd.drain_cutset(|sub| cutset.push(sub));
        assert!(dd.is_exact() || !cutset.is_empty());
        for sub in cutset {
            assert!(sub.ub <= best);
        }
    }
}

#[test]
fn the_cutoff_stops_every_kind_of_compilation_at_the_first_check() {
    for comp_type in [CompilationType::Exact, CompilationType::Restricted, CompilationType::Relaxed] {
        let cutoff = StopAt { check: 1, asked: Cell::new(0) };
        let mut dd = WithLongArcs::new();
        let result = dd.compile(&knapsack(comp_type, &cutoff, 2, isize::MIN));
        assert_eq!(result, Err(Reason::CutoffOccurred));
        assert_eq!(cutoff.asked.get(), 1);
        assert_eq!(dd.nodes.len(), 1);
    }
}

#[test]
fn the_cutoff_is_asked_once_for_every_variable() {
    let cutoff = StopAt { check: 3, asked: Cell::new(0) };
    let mut dd = WithLongArcs::new();
    let result = dd.compile(&knapsack(CompilationType::Exact, &cutoff, 2, isize::MIN));
    assert_eq!(result, Err(Reason::CutoffOccurred));
    assert_eq!(cutoff.asked.get(), 3);
    let never = StopAt { check: 100, asked: Cell::new(0) };
    assert!(dd.compile(&knapsack(CompilationType::Exact, &never, 2, isize::MIN)).is_ok());
    assert_eq!(never.asked.get(), 5);
}

#[test]
fn a_pruned_root_leaves_the_diagram_empty_beyond_the_root() {
    for comp_type in [CompilationType::Exact, CompilationType::Restricted, CompilationType::Relaxed] {
        // the rough upper bound of the root is thirty-two
        let mut dd = WithLongArcs::new();
        let result = dd.compile(&knapsack(comp_type, &NoCutoff, 2, 32));
        assert!(result.is_ok());
        assert_eq!(dd.nodes.len(), 1);
        assert!(dd.edges.is_empty());
        assert_eq!(dd.best_value(), None);
        let mut cutset = vec![];
        dd.drain_cutset(|sub| cutset.push(sub));
        assert!(cutset.is_empty());
        // one less and the root branches
        let mut dd = WithLongArcs::new();
        assert!(dd.compile(&knapsack(comp_type, &NoCutoff, 2, 31)).is_ok());
        assert!(dd.nodes.len() > 1);
    }
}

#[test]
fn a_restricted_compilation_of_width_zero_keeps_nothing() {
    let dd = compiled(CompilationType::Restricted, 0);
    assert_eq!(dd.best_value(), None);
    assert_eq!(dd.best_solution(), None);
    assert!(!dd.is_exact());
    assert_eq!(dd.nodes.len(), 1);
}

#[test]
fn a_compilation_starts_from_an_empty_diagram() {
    let mut dd = compiled(CompilationType::Relaxed, 2);
    assert!(dd.lel.is_some());
    assert!(dd.compile(&knapsack(CompilationType::Exact, &NoCutoff, 2, isize::MIN)).is_ok());
    assert!(dd.lel.is_none());
    assert!(dd.is_exact());
    assert_eq!(dd.best_value(), Some(17));
    let fresh = compiled(CompilationType::Exact, 2);
    assert_eq!(dd.nodes.len(), fresh.nodes.len());
}

#[test]
fn the_completion_reports_what_the_diagram_answers() {
    for comp_type in [CompilationType::Exact, CompilationType::Restricted, CompilationType::Relaxed] {
        let mut dd = WithLongArcs::new();
        let completion = dd.compile(&knapsack(comp_type, &NoCutoff, 2, isize::MIN)).unwrap();
        assert_eq!(completion.is_exact, dd.is_exact());
        assert_eq!(completion.best_value, dd.best_value());
    }
}

#[test]
fn at_most_one_node_of_a_layer_stands_for_a_state() {
    let dd = compiled(CompilationType::Exact, usize::MAX);
    let mut seen = std::collections::HashSet::new();
    for node in dd.nodes.iter() {
        assert!(seen.insert(*node.state));
    }
}

#[test]
fn a_marked_node_is_in_the_last_layer_or_the_source_of_an_edge_into_a_marked_node() {
    let dd = compiled(CompilationType::Relaxed, 2);
    assert!(!dd.is_exact());
    let mut reached = vec![false; dd.nodes.len()];
    for id in dd.next_l.values() {
        reached[*id] = true;
    }
    for (id, node) in dd.nodes.iter().enumerate() {
        let last = dd.next_l.get(&node.state) == Some(&id);
        if node.flags.is_marked() && (last || !node.flags.is_cutset()) {
            let mut edge = node.inbound;
            while let Some(e) = edge {
                reached[dd.edges[e].from] = true;
                edge = dd.edges[e].next;
            }
        }
    }
    for (id, node) in dd.nodes.iter().enumerate() {
        assert_eq!(node.flags.is_marked(), reached[id]);
    }
}

#[test]
fn the_edges_into_nodes_that_are_not_relaxed_are_transitions_of_the_problem() {
    for comp_type in [CompilationType::Exact, CompilationType::Restricted, CompilationType::Relaxed] {
        for width in 1..5 {
            let dd = compiled(comp_type, width);
            let mut relaxed = 0;
            for node in dd.nodes.iter() {
                if node.flags.is_relaxed() {
                    relaxed += 1;
                    continue;
                }
                let mut edge = node.inbound;
                while let Some(e) = edge {
                    let arc = dd.edges[e];
                    let source = &dd.nodes[arc.from];
                    assert_eq!(Knapsack.transition(&source.state, arc.decision), *node.state);
                    assert_eq!(Knapsack.transition_cost(&source.state, arc.decision), arc.cost);
                    edge = arc.next;
                }
            }
            if !matches!(comp_type, CompilationType::Relaxed) {
                assert_eq!(relaxed, 0);
                assert!(dd.nodes.iter().all(|node| node.flags.is_exact()));
            }
        }
    }
}

#[test]
fn the_value_of_a_node_is_the_greatest_that_its_inbound_edges_bring() {
    let dd = compiled(CompilationType::Relaxed, 2);
    for node in dd.nodes.iter() {
        let mut edge = node.inbound;
        let mut greatest = None;
        while let Some(e) = edge {
            let arc = dd.edges[e];
            let brought = dd.nodes[arc.from].value.saturating_add(arc.cost);
            greatest = Some(greatest.map_or(brought, |g: isize| g.max(brought)));
            edge = arc.next;
        }
        if let Some(greatest) = greatest {
            assert_eq!(node.value, greatest);
        }
    }
}

#[test]
fn a_node_is_exact_exactly_when_it_is_not_relaxed_and_its_sources_are_exact() {
    let dd = compiled(CompilationType::Relaxed, 2);
    for node in dd.nodes.iter() {
        let mut edge = node.inbound;
        let mut sources_exact = true;
        while let Some(e) = edge {
            sources_exact = sources_exact && dd.nodes[dd.edges[e].from].flags.is_exact();
            edge = dd.edges[e].next;
        }
        assert_eq!(node.flags.is_exact(), !node.flags.is_relaxed() && sources_exact);
    }
}
