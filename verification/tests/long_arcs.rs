use ddo::{
    CompilationInput, CompilationType, Cutoff, Decision, DecisionCallback, NoCutoff, Problem,
    Rank, Reason, Relaxation, StateIter, StateRanking, SubProblem, Variable, WithLongArcs,
};
use rustc_hash::FxHashMap;
use std::cell::Cell;
use std::sync::Arc;

#[derive(Debug, PartialEq, Eq, Hash, Clone, Copy)]
struct DummyState {
    value: isize,
    depth: usize,
}

#[derive(Copy, Clone)]
struct DummyProblem;

impl Problem for DummyProblem {
    type State = DummyState;

    fn transition(&self, state: &DummyState, decision: Decision) -> DummyState {
        DummyState { value: state.value + decision.value, depth: 1 + state.depth }
    }

    fn transition_cost(&self, _: &DummyState, decision: Decision) -> isize {
        decision.value
    }

    fn next_variable(&self, next_layer: &mut StateIter<'_, DummyState>) -> Option<Variable> {
        next_layer.next().map(|x| x.depth).filter(|d| *d < 3).map(Variable)
    }

    fn for_each_in_domain(&self, var: Variable, _: &DummyState, f: &mut DecisionCallback) {
        for d in 0..=2 {
            f.apply(Decision { variable: var, value: d })
        }
    }
}

#[derive(Clone, Copy)]
struct DummyInfeasibleProblem;

impl Problem for DummyInfeasibleProblem {
    type State = DummyState;

    fn transition(&self, state: &DummyState, decision: Decision) -> DummyState {
        DummyState { value: state.value + decision.value, depth: 1 + state.depth }
    }

    fn transition_cost(&self, _: &DummyState, decision: Decision) -> isize {
        decision.value
    }

    fn next_variable(&self, next_layer: &mut StateIter<'_, DummyState>) -> Option<Variable> {
        next_layer.next().map(|x| x.depth).filter(|d| *d < 3).map(Variable)
    }

    fn for_each_in_domain(&self, _: Variable, _: &DummyState, _: &mut DecisionCallback) {
        /* all domains are empty */
    }
}

#[derive(Copy, Clone)]
struct DummyRelax;

impl Relaxation for DummyRelax {
    type State = DummyState;

    fn merge(&self, s: &mut StateIter<'_, DummyState>) -> DummyState {
        s.next().map(|s| DummyState { value: 100, depth: s.depth }).unwrap()
    }

    fn relax(&self, _: &DummyState, _: &DummyState, _: &DummyState, _: Decision, _: isize) -> isize {
        20
    }

    fn fast_upper_bound(&self, _state: &DummyState) -> isize {
        50
    }
}

#[derive(Copy, Clone)]
struct DummyRanking;

impl StateRanking for DummyRanking {
    type State = DummyState;

    fn compare(&self, a: &DummyState, b: &DummyState) -> Rank {
        Rank::of(a.value.cmp(&b.value).reverse())
    }
}

#[derive(Debug, Clone, Copy)]
struct CutoffAlways;

impl Cutoff for CutoffAlways {
    fn must_stop(&self) -> bool {
        true
    }
}

/// A problem in which the state `e` is impacted by no variable. It hands
/// out its variables in turn, and names none once only `e` is left.
struct DummyLongArcProblem {
    count: Cell<usize>,
}

impl DummyLongArcProblem {
    fn new() -> Self {
        DummyLongArcProblem { count: Cell::new(0) }
    }
}

impl Problem for DummyLongArcProblem {
    type State = char;

    fn transition(&self, s: &char, d: Decision) -> char {
        match (*s, d.variable.id(), d.value) {
            ('a', 0, _) => 'b',
            ('b', 1, _) => 'b',
            ('b', 2, 0) => 'c',
            ('b', 2, 1) => 'd',
            ('b', 2, 2) => 'e',
            ('c', 3, 0) => 'f',
            ('c', 3, 1) => 'g',
            ('c', 3, 2) => 'h',
            ('d', 3, 0) => 'i',
            ('d', 3, 1) => 'j',
            ('d', 3, 2) => 'k',
            _ => 'x',
        }
    }

    fn transition_cost(&self, state: &char, _: Decision) -> isize {
        match *state {
            'a' => 1,
            'b' => 2,
            'c' => 3,
            'M' => 100000,
            _ => 1,
        }
    }

    fn next_variable(&self, next_layer: &mut StateIter<'_, char>) -> Option<Variable> {
        let mut impacted = false;
        while let Some(state) = next_layer.next() {
            impacted = impacted || *state != 'e';
        }
        let value = self.count.get();
        if impacted && value < 5 {
            self.count.set(value + 1);
            Some(Variable(value))
        } else {
            None
        }
    }

    fn for_each_in_domain(&self, var: Variable, _: &char, f: &mut DecisionCallback) {
        for d in 0..=2 {
            f.apply(Decision { variable: var, value: d })
        }
    }

    fn is_impacted_by(&self, _: Variable, state: &char) -> bool {
        *state != 'e'
    }
}

#[derive(Copy, Clone)]
struct DummyLongArcRelax;

impl Relaxation for DummyLongArcRelax {
    type State = char;

    fn merge(&self, _: &mut StateIter<'_, char>) -> char {
        'M'
    }

    fn relax(&self, _: &char, _: &char, _: &char, _: Decision, cost: isize) -> isize {
        cost
    }
}

#[derive(Copy, Clone)]
struct DummyLongArcRanking;

impl StateRanking for DummyLongArcRanking {
    type State = char;

    fn compare(&self, a: &char, b: &char) -> Rank {
        Rank::of(a.cmp(b))
    }
}

/// The example of local bounds: the relaxed diagram below, in which the
/// layer of `a` and `b` is the last exact layer.
///
/// ```plain
///                      r
///                   /     \
///                10        7
///               /           |
///             a              b
///             |     +--------+-------+
///             |     |        |       |
///             2     3        6       5
///              \   /         |       |
///                M           e       f
///                |           |     /   \
///                4           0   1      2
///                |           |  /        \
///                g            h           i
///                |            |           |
///                0            0           0
///                +------------+-----------+
///                             t
/// ```
#[derive(Copy, Clone)]
struct LocBoundsExamplePb;

impl Problem for LocBoundsExamplePb {
    type State = char;

    fn next_variable(&self, next_layer: &mut StateIter<'_, char>) -> Option<Variable> {
        match next_layer.next().copied().unwrap_or('z') {
            'r' => Some(Variable(0)),
            'a' => Some(Variable(1)),
            'b' => Some(Variable(1)),
            'c' => Some(Variable(2)),
            'd' => Some(Variable(2)),
            'M' => Some(Variable(2)),
            'e' => Some(Variable(2)),
            'f' => Some(Variable(2)),
            _ => None,
        }
    }

    fn for_each_in_domain(&self, variable: Variable, state: &char, f: &mut DecisionCallback) {
        let domain: Vec<isize> = match *state {
            'r' => vec![10, 7],
            'a' => vec![2],
            'b' => vec![3, 6, 5],
            'M' => vec![4],
            'e' => vec![0],
            'f' => vec![1, 2],
            _ => vec![],
        };
        for value in domain {
            f.apply(Decision { variable, value })
        }
    }

    fn transition(&self, state: &char, d: Decision) -> char {
        match (*state, d.value) {
            ('r', 10) => 'a',
            ('r', 7) => 'b',
            ('a', 2) => 'c',
            ('b', 3) => 'd',
            ('b', 6) => 'e',
            ('b', 5) => 'f',
            ('M', 4) => 'g',
            ('e', 0) => 'h',
            ('f', 1) => 'h',
            ('f', 2) => 'i',
            _ => 't',
        }
    }

    fn transition_cost(&self, _: &char, d: Decision) -> isize {
        d.value
    }
}

#[derive(Copy, Clone)]
struct LocBoundExampleRelax;

impl Relaxation for LocBoundExampleRelax {
    type State = char;

    fn merge(&self, _: &mut StateIter<'_, char>) -> char {
        'M'
    }

    fn relax(&self, _: &char, _: &char, _: &char, _: Decision, cost: isize) -> isize {
        cost
    }
}

#[derive(Clone, Copy)]
struct CmpChar;

impl StateRanking for CmpChar {
    type State = char;

    fn compare(&self, a: &char, b: &char) -> Rank {
        Rank::of(a.cmp(b))
    }
}

fn dummy_input<'a, C: Cutoff>(
    comp_type: CompilationType,
    cutoff: &'a C,
    max_width: usize,
) -> CompilationInput<'a, DummyProblem, DummyRelax, DummyRanking, C> {
    CompilationInput {
        comp_type,
        problem: &DummyProblem,
        relaxation: &DummyRelax,
        ranking: &DummyRanking,
        cutoff,
        max_width,
        best_lb: isize::MIN,
        residual: SubProblem {
            state: Arc::new(DummyState { depth: 0, value: 0 }),
            value: 0,
            path: vec![],
            ub: isize::MAX,
        },
    }
}

fn infeasible_input(
    comp_type: CompilationType,
    best_lb: isize,
) -> CompilationInput<'static, DummyInfeasibleProblem, DummyRelax, DummyRanking, NoCutoff> {
    CompilationInput {
        comp_type,
        problem: &DummyInfeasibleProblem,
        relaxation: &DummyRelax,
        ranking: &DummyRanking,
        cutoff: &NoCutoff,
        max_width: usize::MAX,
        best_lb,
        residual: SubProblem {
            state: Arc::new(DummyState { depth: 0, value: 0 }),
            value: 0,
            path: vec![],
            ub: isize::MAX,
        },
    }
}

#[test]
fn by_default_the_mdd_type_is_exact() {
    let mdd = WithLongArcs::<usize>::new();

    assert!(mdd.is_exact());
}

#[test]
fn root_remembers_the_pa_from_the_frontier_node() {
    let mut input = CompilationInput {
        comp_type: CompilationType::Exact,
        problem: &DummyProblem,
        relaxation: &DummyRelax,
        ranking: &DummyRanking,
        cutoff: &NoCutoff,
        max_width: 3,
        best_lb: isize::MIN,
        residual: SubProblem {
            state: Arc::new(DummyState { depth: 1, value: 42 }),
            value: 42,
            path: vec![Decision { variable: Variable(0), value: 42 }],
            ub: isize::MAX,
        },
    };

    let mut mdd = WithLongArcs::new();
    assert!(mdd.compile(&input).is_ok());
    assert_eq!(mdd.root_pa, vec![Decision { variable: Variable(0), value: 42 }]);

    input.comp_type = CompilationType::Relaxed;
    assert!(mdd.compile(&input).is_ok());
    assert_eq!(mdd.root_pa, vec![Decision { variable: Variable(0), value: 42 }]);

    input.comp_type = CompilationType::Restricted;
    assert!(mdd.compile(&input).is_ok());
    assert_eq!(mdd.root_pa, vec![Decision { variable: Variable(0), value: 42 }]);
}

#[test]
fn exact_completely_unrolls_the_mdd_no_matter_its_width() {
    let input = dummy_input(CompilationType::Exact, &NoCutoff, 1);
    let mut mdd = WithLongArcs::new();

    assert!(mdd.compile(&input).is_ok());
    assert!(mdd.best_solution().is_some());
    assert_eq!(mdd.best_value(), Some(6));
    assert_eq!(
        mdd.best_solution().unwrap(),
        vec![
            Decision { variable: Variable(2), value: 2 },
            Decision { variable: Variable(1), value: 2 },
            Decision { variable: Variable(0), value: 2 },
        ]
    );
}

#[test]
fn restricted_drops_the_less_interesting_nodes() {
    let input = dummy_input(CompilationType::Restricted, &NoCutoff, 1);
    let mut mdd = WithLongArcs::new();

    assert!(mdd.compile(&input).is_ok());
    assert!(mdd.best_solution().is_some());
    assert_eq!(mdd.best_value().unwrap(), 6);
    assert_eq!(
        mdd.best_solution().unwrap(),
        vec![
            Decision { variable: Variable(2), value: 2 },
            Decision { variable: Variable(1), value: 2 },
            Decision { variable: Variable(0), value: 2 },
        ]
    );
}

#[test]
fn exact_no_cutoff_completion_must_be_coherent_with_outcome() {
    let input = dummy_input(CompilationType::Exact, &NoCutoff, 1);
    let mut mdd = WithLongArcs::new();
    let result = mdd.compile(&input);

    assert!(result.is_ok());
    let completion = result.unwrap();
    assert_eq!(completion.is_exact, mdd.is_exact());
    assert_eq!(completion.best_value, mdd.best_value());
}

#[test]
fn restricted_no_cutoff_completion_must_be_coherent_with_outcome_() {
    let input = dummy_input(CompilationType::Restricted, &NoCutoff, 1);
    let mut mdd = WithLongArcs::new();
    let result = mdd.compile(&input);

    assert!(result.is_ok());
    let completion = result.unwrap();
    assert_eq!(completion.is_exact, mdd.is_exact());
    assert_eq!(completion.best_value, mdd.best_value());
}

#[test]
fn relaxed_no_cutoff_completion_must_be_coherent_with_outcome() {
    let input = dummy_input(CompilationType::Relaxed, &NoCutoff, 1);
    let mut mdd = WithLongArcs::new();
    let result = mdd.compile(&input);

    assert!(result.is_ok());
    let completion = result.unwrap();
    assert_eq!(completion.is_exact, mdd.is_exact());
    assert_eq!(completion.best_value, mdd.best_value());
}

#[test]
fn exact_fails_with_cutoff_when_cutoff_occurs() {
    let input = dummy_input(CompilationType::Exact, &CutoffAlways, 1);
    let mut mdd = WithLongArcs::new();
    let result = mdd.compile(&input);
    assert!(result.is_err());
    assert_eq!(Some(Reason::CutoffOccurred), result.err());
}

#[test]
fn restricted_fails_with_cutoff_when_cutoff_occurs() {
    let input = dummy_input(CompilationType::Restricted, &CutoffAlways, 1);
    let mut mdd = WithLongArcs::new();
    let result = mdd.compile(&input);
    assert!(result.is_err());
    assert_eq!(Some(Reason::CutoffOccurred), result.err());
}

#[test]
fn relaxed_fails_with_cutoff_when_cutoff_occurs() {
    let input = dummy_input(CompilationType::Relaxed, &CutoffAlways, 1);
    let mut mdd = WithLongArcs::new();
    let result = mdd.compile(&input);
    assert!(result.is_err());
    assert_eq!(Some(Reason::CutoffOccurred), result.err());
}

#[test]
fn relaxed_merges_the_less_interesting_nodes() {
    let input = dummy_input(CompilationType::Relaxed, &NoCutoff, 1);
    let mut mdd = WithLongArcs::new();
    let result = mdd.compile(&input);

    assert!(result.is_ok());
    assert!(mdd.best_solution().is_some());
    assert_eq!(mdd.best_value().unwrap(), 24);
    assert_eq!(
        mdd.best_solution().unwrap(),
        vec![
            Decision { variable: Variable(2), value: 2 },
            Decision { variable: Variable(1), value: 0 }, // that's a relaxed edge
            Decision { variable: Variable(0), value: 2 },
        ]
    );
}

#[test]
fn relaxed_populates_the_cutset_and_will_not_squash_first_layer() {
    let input = dummy_input(CompilationType::Relaxed, &NoCutoff, 1);
    let mut mdd = WithLongArcs::new();
    let result = mdd.compile(&input);
    assert!(result.is_ok());

    let mut cutset = vec![];
    mdd.drain_cutset(|n| cutset.push(n));
    assert_eq!(cutset.len(), 3); // L1 was not squashed even though it was 3 wide
}

#[test]
fn an_exact_mdd_must_be_exact() {
    let input = dummy_input(CompilationType::Exact, &NoCutoff, 1);
    let mut mdd = WithLongArcs::new();
    let result = mdd.compile(&input);
    assert!(result.is_ok());

    assert_eq!(true, mdd.is_exact())
}

#[test]
fn a_relaxed_mdd_is_exact_as_long_as_no_merge_occurs() {
    let input = dummy_input(CompilationType::Relaxed, &NoCutoff, 10);
    let mut mdd = WithLongArcs::new();
    let result = mdd.compile(&input);
    assert!(result.is_ok());

    assert_eq!(true, mdd.is_exact())
}

#[test]
fn a_relaxed_mdd_is_not_exact_when_a_merge_occured() {
    let input = dummy_input(CompilationType::Relaxed, &NoCutoff, 1);
    let mut mdd = WithLongArcs::new();
    let result = mdd.compile(&input);
    assert!(result.is_ok());

    assert_eq!(false, mdd.is_exact())
}

#[test]
fn a_restricted_mdd_is_exact_as_long_as_no_restriction_occurs() {
    let input = dummy_input(CompilationType::Restricted, &NoCutoff, 10);
    let mut mdd = WithLongArcs::new();
    let result = mdd.compile(&input);
    assert!(result.is_ok());

    assert_eq!(true, mdd.is_exact())
}

#[test]
fn a_restricted_mdd_is_not_exact_when_a_restriction_occured() {
    let input = dummy_input(CompilationType::Relaxed, &NoCutoff, 1);
    let mut mdd = WithLongArcs::new();
    let result = mdd.compile(&input);
    assert!(result.is_ok());

    assert_eq!(false, mdd.is_exact())
}

#[test]
fn when_the_problem_is_infeasible_there_is_no_solution() {
    let input = infeasible_input(CompilationType::Exact, isize::MIN);
    let mut mdd = WithLongArcs::new();
    let result = mdd.compile(&input);
    assert!(result.is_ok());
    assert!(mdd.best_solution().is_none())
}

#[test]
fn when_the_problem_is_infeasible_there_is_no_best_value() {
    let input = infeasible_input(CompilationType::Exact, isize::MIN);
    let mut mdd = WithLongArcs::new();
    let result = mdd.compile(&input);
    assert!(result.is_ok());
    assert!(mdd.best_value().is_none())
}

#[test]
fn exact_skips_node_with_an_ub_less_than_best_known_lb() {
    let input = infeasible_input(CompilationType::Exact, 1000);
    let mut mdd = WithLongArcs::new();
    let result = mdd.compile(&input);
    assert!(result.is_ok());
    assert!(mdd.best_solution().is_none())
}

#[test]
fn relaxed_skips_node_with_an_ub_less_than_best_known_lb() {
    let input = infeasible_input(CompilationType::Relaxed, 1000);
    let mut mdd = WithLongArcs::new();
    let result = mdd.compile(&input);
    assert!(result.is_ok());
    assert!(mdd.best_solution().is_none())
}

#[test]
fn restricted_skips_node_with_an_ub_less_than_best_known_lb() {
    let input = infeasible_input(CompilationType::Restricted, 1000);
    let mut mdd = WithLongArcs::new();
    let result = mdd.compile(&input);
    assert!(result.is_ok());
    assert!(mdd.best_solution().is_none())
}

#[test]
fn it_must_be_possible_to_introduce_long_arcs() {
    let problem = DummyLongArcProblem::new();
    let input = CompilationInput {
        comp_type: CompilationType::Restricted,
        problem: &problem,
        relaxation: &DummyLongArcRelax,
        ranking: &DummyLongArcRanking,
        cutoff: &NoCutoff,
        max_width: usize::MAX,
        best_lb: 1000,
        residual: SubProblem { state: Arc::new('e'), value: 1, path: vec![], ub: isize::MAX },
    };
    let mut mdd = WithLongArcs::new();
    let result = mdd.compile(&input);
    assert!(result.is_ok());
    assert!(mdd.best_solution().is_some());
    assert!(mdd.best_solution().unwrap().is_empty());
}

#[test]
fn exact_cutset_must_include_long_arcs() {
    let problem = DummyLongArcProblem::new();
    let input = CompilationInput {
        comp_type: CompilationType::Relaxed,
        problem: &problem,
        relaxation: &DummyLongArcRelax,
        ranking: &DummyLongArcRanking,
        cutoff: &NoCutoff,
        max_width: 2,
        best_lb: isize::MIN,
        residual: SubProblem { state: Arc::new('a'), value: 0, path: vec![], ub: isize::MAX },
    };
    let mut mdd = WithLongArcs::new();
    let result = mdd.compile(&input);
    assert!(result.is_ok());
    assert!(mdd.best_solution().is_some());

    let mut cutset = vec![];
    mdd.drain_cutset(|x| cutset.push(*x.state.as_ref()));

    cutset.sort();
    assert_eq!(vec!['c', 'd', 'e'], cutset);
}

#[test]
fn relaxed_computes_local_bounds() {
    let input = CompilationInput {
        comp_type: CompilationType::Relaxed,
        problem: &LocBoundsExamplePb,
        relaxation: &LocBoundExampleRelax,
        ranking: &CmpChar,
        cutoff: &NoCutoff,
        max_width: 3,
        best_lb: 0,
        residual: SubProblem { state: Arc::new('r'), value: 0, path: vec![], ub: isize::MAX },
    };
    let mut mdd = WithLongArcs::new();
    let result = mdd.compile(&input);
    assert!(result.is_ok());

    assert_eq!(false, mdd.is_exact());
    assert_eq!(Some(16), mdd.best_value());

    let mut v = FxHashMap::<char, isize>::default();
    mdd.drain_cutset(|n| {
        v.insert(*n.state, n.ub);
    });

    assert_eq!(16, v[&'a']);
    assert_eq!(14, v[&'b']);
}
