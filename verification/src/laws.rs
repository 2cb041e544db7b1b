//! What holds of every well-formed diagram, whatever compiled it.

use crate::abstraction::{Problem, StateRanking};
use crate::common::CompilationType;
use crate::mdd::arena::WithLongArcs;
use crate::mdd::control::must_shrink;
use std::hash::Hash;
use vstd::prelude::*;

verus! {

/// An exact compilation ignores the maximum width: no layer must shrink,
/// however wide it is and however small the maximum width.
pub proof fn law_exact_ignores_width(max_width: usize, depth: usize, width: nat)
    ensures
        !must_shrink(CompilationType::Exact, max_width, depth, width),
{
}

/// A relaxed compilation never shrinks the root or the first layer under
/// it, so that the cutset is never the root alone.
pub proof fn law_relaxed_keeps_first_layer(max_width: usize, depth: usize, width: nat)
    requires
        depth <= 1,
    ensures
        !must_shrink(CompilationType::Relaxed, max_width, depth, width),
{
}

/// A diagram in which no layer had to shrink is exact, however it was
/// compiled; and a diagram that is not relaxed is exact only if no layer had
/// to shrink.
pub proof fn law_exact_iff_no_shrink<T: Eq + Hash>(dd: &WithLongArcs<T>, comp_type: CompilationType)
    ensures
        dd.lel is None ==> dd.is_exact_spec(comp_type),
        !(comp_type is Relaxed) ==> (dd.is_exact_spec(comp_type) <==> dd.lel is None),
        comp_type is Relaxed && dd.lel is Some ==> (dd.is_exact_spec(comp_type) <==> match dd.best_n {
            Some(id) => dd.exact_best_path(id as int),
            None => true,
        }),
{
}

/// The value of every node is the value at which its best path starts plus
/// the costs of the edges of that path, added one after the other, each
/// sum held to the range of `isize`.
pub proof fn law_value_is_path_value<T: Eq + Hash>(dd: &WithLongArcs<T>, n: int)
    requires
        dd.wf(),
        0 <= n < dd.nodes@.len(),
    ensures
        dd.nodes@[n].value == dd.path_value(n),
    decreases n,
{
    assert(dd.node_wf(n));
    match dd.best_source(n) {
        Some(source) => {
            law_value_is_path_value(dd, source);
        },
        None => {},
    }
}

/// The best value and the best solution agree: there is one exactly when
/// there is the other, and the best value is what the costs along the best
/// solution add up to.
pub proof fn law_best_value_matches_solution<T: Eq + Hash>(dd: &WithLongArcs<T>)
    requires
        dd.wf(),
    ensures
        dd.best_value_spec() is Some <==> dd.best_solution_spec() is Some,
        dd.best_n matches Some(id) ==> dd.best_value_spec() == Some(dd.path_value(id as int)),
{
    if let Some(id) = dd.best_n {
        law_value_is_path_value(dd, id as int);
    }
}

/// The path of every node starts with the decisions that lead to the root
/// of the diagram, and so does the best solution.
pub proof fn law_paths_start_with_root_path<T: Eq + Hash>(dd: &WithLongArcs<T>, n: int)
    ensures
        dd.root_pa@.is_prefix_of(dd.best_path(n)),
        dd.best_path(n).take(dd.root_pa@.len() as int) == dd.root_pa@,
        dd.best_solution_spec() matches Some(solution) ==> dd.root_pa@.is_prefix_of(solution),
{
    assert(dd.best_path(n).take(dd.root_pa@.len() as int) =~= dd.root_pa@);
    if let Some(id) = dd.best_n {
        assert(dd.best_path(id as int).take(dd.root_pa@.len() as int) =~= dd.root_pa@);
    }
}

/// The upper bound of the subproblem of a cutset node never exceeds the
/// best value of the diagram, nor the node's value plus its rough upper
/// bound, nor its value plus the length of its longest path below.
pub proof fn law_cutset_ub_is_tightest<T: Eq + Hash>(dd: &WithLongArcs<T>, id: int, best: isize)
    ensures
        dd.cutset_ub(id, best) <= best,
        dd.cutset_ub(id, best) <= crate::common::sat_add_spec(
            dd.nodes@[id].value,
            dd.nodes@[id].rub,
        ),
        dd.cutset_ub(id, best) <= crate::common::sat_add_spec(
            dd.nodes@[id].value,
            dd.nodes@[id].value_bot,
        ),
{
}

/// A diagram without a best value, which is what an infeasible problem
/// compiles to, has an empty cutset.
pub proof fn law_no_best_value_no_cutset<T: Eq + Hash>(dd: &WithLongArcs<T>)
    requires
        dd.best_value_spec() is None,
    ensures
        dd.cutset_ids().len() == 0,
{
}

/// Every node of the cutset is a marked node of the last exact layer.
pub proof fn law_cutset_is_marked_lel<T: Eq + Hash>(dd: &WithLongArcs<T>, ids: Seq<usize>, upto: int, i: int)
    requires
        0 <= upto <= ids.len(),
        0 <= i < dd.marked_among(ids, upto).len(),
    ensures
        dd.nodes@[dd.marked_among(ids, upto)[i] as int].flags.marked(),
        exists|k: int| 0 <= k < upto && #[trigger] ids[k] == dd.marked_among(ids, upto)[i],
    decreases upto,
{
    if upto > 0 {
        let shorter = dd.marked_among(ids, upto - 1);
        if dd.nodes@[ids[upto - 1] as int].flags.marked() && i == shorter.len() {
            assert(ids[upto - 1] == dd.marked_among(ids, upto)[i]);
        } else {
            law_cutset_is_marked_lel(dd, ids, upto - 1, i);
            let k = choose|k: int| 0 <= k < upto - 1 && #[trigger] ids[k] == shorter[i];
            assert(ids[k] == dd.marked_among(ids, upto)[i]);
        }
    }
}

/// An exact node is not relaxed, and its best path is a path of the
/// problem: the source of its best edge is exact too, and so on back to the
/// root.
pub proof fn law_exact_node_has_exact_path<T: Eq + Hash>(dd: &WithLongArcs<T>, n: int)
    requires
        dd.wf(),
        0 <= n < dd.nodes@.len(),
        dd.nodes@[n].flags.exact(),
    ensures
        !dd.nodes@[n].flags.relaxed(),
        dd.exact_best_path(n),
        dd.best_source(n) matches Some(source) ==> dd.nodes@[source].flags.exact(),
{
    assert(dd.node_wf(n));
}

/// The value of a node is the greatest of what its inbound edges bring: no
/// edge that enters it brings more than the value of the node, and the best
/// edge of the node, where it has one, enters it and brings exactly that.
pub proof fn law_value_is_longest<T: Eq + Hash>(dd: &WithLongArcs<T>, n: int)
    requires
        dd.wf(),
        0 <= n < dd.nodes@.len(),
    ensures
        forall|k: int|
            0 <= k < dd.inbound_edges(n).len() ==> dd.nodes@[n].value >= crate::common::sat_add_spec(
                dd.nodes@[dd.edges@[#[trigger] dd.inbound_edges(n)[k] as int].from as int].value,
                dd.edges@[dd.inbound_edges(n)[k] as int].cost,
            ),
        dd.nodes@[n].best matches Some(b) ==> {
            &&& exists|k: int| 0 <= k < dd.inbound_edges(n).len() && #[trigger] dd.inbound_edges(n)[k] == b
            &&& dd.nodes@[n].value == crate::common::sat_add_spec(
                dd.nodes@[dd.edges@[b as int].from as int].value,
                dd.edges@[b as int].cost,
            )
        },
{
    assert(dd.node_wf(n));
    assert(dd.inbound_wf(n));
}

/// A node is exact exactly when it is not relaxed and the source of every
/// edge that enters it is exact.
pub proof fn law_exact_iff_sources_exact<T: Eq + Hash>(dd: &WithLongArcs<T>, n: int)
    requires
        dd.wf(),
        0 <= n < dd.nodes@.len(),
    ensures
        dd.nodes@[n].flags.exact() <==> !dd.nodes@[n].flags.relaxed() && dd.sources_exact(n),
{
    assert(dd.node_wf(n));
    assert(dd.inbound_wf(n));
}

/// Every edge leaves a node that lies before the layer under construction,
/// and every inbound list runs back through the arena, so that walking a
/// list or a best path comes to an end.
pub proof fn law_edges_run_backwards<T: Eq + Hash>(dd: &WithLongArcs<T>, e: int)
    requires
        dd.wf(),
        0 <= e < dd.edges@.len(),
    ensures
        dd.edges@[e].from < dd.settled@ <= dd.nodes@.len(),
        dd.edges@[e].next matches Some(n) ==> n < e,
        forall|state: std::sync::Arc<T>| #[trigger]
            dd.next_l@.contains_key(state) ==> dd.edges@[e].from < dd.next_l@[state],
{
    assert(dd.edge_wf(e));
}

/// Where the order that the values and the ranking give is transitive on
/// the nodes of an ordered layer, every node of the layer may stand before
/// every node that comes after it, not only before the next.
pub proof fn law_ordered_layer_is_sorted<T: Eq + Hash, K: StateRanking<State = T>>(
    dd: &WithLongArcs<T>,
    ranking: &K,
    layer: Seq<usize>,
    i: int,
    j: int,
)
    requires
        dd.ordered(ranking, layer),
        0 <= i < j < layer.len(),
        forall|a: int, b: int, c: int|
            0 <= a < b < c < layer.len() && #[trigger] dd.in_order(
                ranking,
                layer[a] as int,
                layer[b] as int,
            ) && #[trigger] dd.in_order(ranking, layer[b] as int, layer[c] as int) ==> dd.in_order(
                ranking,
                layer[a] as int,
                layer[c] as int,
            ),
    ensures
        dd.in_order(ranking, layer[i] as int, layer[j] as int),
    decreases j - i,
{
    assert(dd.in_order(ranking, layer[j - 1] as int, layer[j] as int));
    if i < j - 1 {
        law_ordered_layer_is_sorted(dd, ranking, layer, i, j - 1);
    }
}

/// Whether the best path of node `n` is a path of the problem: walking
/// back along best edges, every edge is a transition of the problem.
pub open spec fn is_real_path<T: Eq + Hash, P: Problem<State = T>>(
    dd: &WithLongArcs<T>,
    problem: &P,
    n: int,
) -> bool
    decreases n,
{
    match dd.best_source(n) {
        Some(source) => dd.is_transition_edge(problem, n, dd.nodes@[n].best.unwrap() as int)
            && is_real_path(dd, problem, source),
        None => true,
    }
}

/// In a diagram that is faithful to its problem, a best path that counts
/// as exact is a path of the problem: every edge along it is a transition of
/// the problem. So the value of a node with such a path, which is what the
/// costs along the path add up to, is the value of a partial solution of
/// the problem. This holds of every node of a diagram that was compiled
/// exactly or restricted, whose best value is therefore never above the
/// optimum; and of the best node of a relaxed diagram that is exact.
pub proof fn law_exact_best_path_is_real<T: Eq + Hash, P: Problem<State = T>>(
    dd: &WithLongArcs<T>,
    problem: &P,
    n: int,
)
    requires
        dd.wf(),
        dd.faithful(problem),
        0 <= n < dd.nodes@.len(),
        dd.exact_best_path(n),
    ensures
        is_real_path(dd, problem, n),
    decreases n,
{
    assert(dd.node_wf(n));
    assert(dd.inbound_wf(n));
    assert(dd.faithful_at(problem, n));
    match dd.best_source(n) {
        Some(source) => {
            let b = dd.nodes@[n].best.unwrap();
            let k = choose|k: int|
                0 <= k < dd.inbound_edges(n).len() && #[trigger] dd.inbound_edges(n)[k] == b;
            assert(dd.is_transition_edge(problem, n, dd.inbound_edges(n)[k] as int));
            if dd.nodes@[n].flags.exact() {
                law_exact_node_has_exact_path(dd, source);
            }
            law_exact_best_path_is_real(dd, problem, source);
        },
        None => {},
    }
}

} // verus!
