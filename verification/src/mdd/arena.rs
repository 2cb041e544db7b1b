//! The arena: nodes and edges in two vectors that only grow, the inbound
//! edges of each node threaded through the edges themselves.

use crate::common::{sat_add_spec, Decision};
use crate::flags::NodeFlags;
use crate::index::StateIndex;
use std::hash::Hash;
use std::sync::Arc;
use vstd::prelude::*;

verus! {

/// A node of the diagram, named by its position in the arena.
#[derive(Debug, Clone)]
pub struct Node<T> {
    /// The state that the node stands for.
    pub state: Arc<T>,
    /// The length of the longest path from the root of the problem to here.
    pub value: isize,
    /// The length of the longest path from here to the last layer, once the
    /// local bounds were computed; the least integer until then.
    pub value_bot: isize,
    /// The last edge of the longest path that reaches the node.
    pub best: Option<usize>,
    /// The edge that entered the node last: the head of its inbound list.
    pub inbound: Option<usize>,
    /// A rough upper bound on what can still be added from here on; the
    /// greatest integer until it is computed.
    pub rub: isize,
    /// The exact, relaxed, marked and cutset bits.
    pub flags: NodeFlags,
}

/// An edge of the diagram, named by its position in the arena. Where it
/// leads is not written down: it leads to the node in whose inbound list it
/// stands.
#[derive(Clone, Copy, Debug)]
pub struct Edge {
    /// The node that the edge leaves.
    pub from: usize,
    /// The decision that the edge stands for.
    pub decision: Decision,
    /// What the decision adds to the objective.
    pub cost: isize,
    /// The edge that entered the same node just before this one.
    pub next: Option<usize>,
}

/// A decision diagram in which an edge may skip layers. Its exact cutset is
/// the last exact layer.
#[derive(Clone)]
pub struct WithLongArcs<T> where T: Eq + Hash {
    /// The decisions that lead from the root of the problem to the root of
    /// this diagram.
    pub root_pa: Vec<Decision>,
    /// The nodes of all layers.
    pub nodes: Vec<Node<T>>,
    /// The edges between them.
    pub edges: Vec<Edge>,
    /// The layer under construction, indexed by state.
    pub next_l: StateIndex<T>,
    /// The layer that was developed last.
    pub prev_l: Vec<usize>,
    /// The last exact layer, once a layer had to shrink.
    pub lel: Option<Vec<usize>>,
    /// The node of the last layer with the greatest value.
    pub best_n: Option<usize>,
    /// Whether the best value is known to be that of an exact path.
    pub exact: bool,
    /// How many nodes are settled: no edge leaves a node beyond this mark,
    /// and the value of a node before it does not change any more.
    pub settled: Ghost<nat>,
}

/// The ids of the edges of an inbound list, from the edge `head` on: each
/// edge names the one that entered the same node just before it.
pub open spec fn edge_chain(edges: Seq<Edge>, head: Option<usize>) -> Seq<usize>
    decreases
        (match head {
            Some(e) => e + 1,
            None => 0,
        }),
{
    match head {
        Some(e) => if e < edges.len() {
            match edges[e as int].next {
                Some(n) => if n < e {
                    seq![e] + edge_chain(edges, Some(n))
                } else {
                    seq![e]
                },
                None => seq![e],
            }
        } else {
            Seq::empty()
        },
        None => Seq::empty(),
    }
}

/// Every id of an inbound list names an edge.
pub proof fn lemma_chain_ids(edges: Seq<Edge>, head: Option<usize>, k: int)
    requires
        0 <= k < edge_chain(edges, head).len(),
    ensures
        edge_chain(edges, head)[k] < edges.len(),
    decreases
        (match head {
            Some(e) => e + 1,
            None => 0,
        }),
{
    match head {
        Some(e) => {
            if e < edges.len() {
                match edges[e as int].next {
                    Some(n) => {
                        if n < e && k > 0 {
                            lemma_chain_ids(edges, Some(n), k - 1);
                        }
                    },
                    None => {},
                }
            }
        },
        None => {},
    }
}

/// An inbound list is the same in every arena that holds the edges up to
/// its head.
pub proof fn lemma_chain_prefix(edges: Seq<Edge>, longer: Seq<Edge>, head: Option<usize>)
    requires
        edges.len() <= longer.len(),
        forall|e: int| 0 <= e < edges.len() ==> #[trigger] longer[e] == edges[e],
        head matches Some(e) ==> e < edges.len(),
    ensures
        edge_chain(longer, head) == edge_chain(edges, head),
    decreases
        (match head {
            Some(e) => e + 1,
            None => 0,
        }),
{
    match head {
        Some(e) => {
            assert(longer[e as int] == edges[e as int]);
            match edges[e as int].next {
                Some(n) => {
                    if n < e {
                        lemma_chain_prefix(edges, longer, Some(n));
                    }
                },
                None => {},
            }
        },
        None => {},
    }
}

impl<T: Eq + Hash> WithLongArcs<T> {
    /// An edge is well formed when it leaves a settled node and the rest of
    /// its list lies before it in the arena.
    pub open spec fn edge_wf(&self, e: int) -> bool {
        let edge = self.edges@[e];
        &&& edge.from < self.settled@
        &&& edge.next matches Some(n) ==> n < e
    }

    /// A node is well formed when its edges exist, its best edge comes from
    /// an earlier node, its value is that of its best edge's source plus
    /// that edge's cost, and, if it is exact, it is not relaxed and the
    /// source of its best edge is exact too.
    pub open spec fn node_wf(&self, n: int) -> bool {
        let node = self.nodes@[n];
        &&& node.inbound matches Some(h) ==> h < self.edges@.len()
        &&& node.flags.exact() ==> !node.flags.relaxed()
        &&& node.best matches Some(b) ==> {
            &&& b < self.edges@.len()
            &&& self.edges@[b as int].from < n
            &&& node.value == sat_add_spec(
                self.nodes@[self.edges@[b as int].from as int].value,
                self.edges@[b as int].cost,
            )
            &&& node.flags.exact() ==> self.nodes@[self.edges@[b as int].from as int].flags.exact()
        }
    }

    /// The inbound list of a node is well formed when the value of the node
    /// is at least what each of its edges brings, its best edge is one of
    /// them, and the node is exact exactly when it is not relaxed and the
    /// source of each of its edges is exact.
    pub open spec fn inbound_wf(&self, n: int) -> bool {
        let node = self.nodes@[n];
        let chain = self.inbound_edges(n);
        &&& forall|k: int|
            0 <= k < chain.len() ==> {
                let e = self.edges@[#[trigger] chain[k] as int];
                &&& node.value >= sat_add_spec(self.nodes@[e.from as int].value, e.cost)
                &&& node.flags.exact() ==> self.nodes@[e.from as int].flags.exact()
            }
        &&& node.best matches Some(b) ==> exists|k: int| 0 <= k < chain.len() && #[trigger] chain[k] == b
        &&& !node.flags.relaxed() && self.sources_exact(n) ==> node.flags.exact()
    }

    /// Says that the source of every edge that enters node `n` is exact.
    pub open spec fn sources_exact(&self, n: int) -> bool {
        forall|k: int|
            0 <= k < self.inbound_edges(n).len() ==> self.nodes@[self.edges@[#[trigger] self.inbound_edges(
                n,
            )[k] as int].from as int].flags.exact()
    }

    /// Says that node `n` has in `self` what it had in `before` of all that
    /// the invariant speaks of.
    pub open spec fn kept(&self, before: &Self, n: int) -> bool {
        &&& self.nodes@[n].state == before.nodes@[n].state
        &&& self.nodes@[n].value == before.nodes@[n].value
        &&& self.nodes@[n].best == before.nodes@[n].best
        &&& self.nodes@[n].inbound == before.nodes@[n].inbound
        &&& self.nodes@[n].flags.exact() == before.nodes@[n].flags.exact()
        &&& self.nodes@[n].flags.relaxed() == before.nodes@[n].flags.relaxed()
    }

    /// Says that the arena of `self` extends that of `before`: the edges and
    /// the nodes of `before` are still there, the settled nodes as they
    /// were, and no node was unsettled.
    pub open spec fn extends(&self, before: &Self) -> bool {
        &&& before.settled@ <= self.settled@ <= self.nodes@.len()
        &&& before.edges@.len() <= self.edges@.len()
        &&& before.nodes@.len() <= self.nodes@.len()
        &&& forall|e: int| 0 <= e < before.edges@.len() ==> #[trigger] self.edges@[e] == before.edges@[e]
        &&& forall|n: int|
            0 <= n < before.settled@ && n < before.nodes@.len() ==> #[trigger] self.kept(before, n)
    }

    /// An arena that extends a well-formed one is well formed if its new
    /// edges are, if each node is as it was or well formed, and if the layer
    /// under construction and the ids are well formed.
    pub proof fn lemma_extends_wf(&self, before: &Self)
        requires
            before.wf(),
            self.extends(before),
            forall|e: int| before.edges@.len() <= e < self.edges@.len() ==> #[trigger] self.edge_wf(e),
            forall|n: int|
                0 <= n < before.nodes@.len() ==> #[trigger] self.kept(before, n) || (self.node_wf(n)
                    && self.inbound_wf(n)),
            forall|n: int|
                before.nodes@.len() <= n < self.nodes@.len() ==> #[trigger] self.node_wf(n)
                    && self.inbound_wf(n),
            self.frontier_wf(),
            self.ids_wf(),
        ensures
            self.wf(),
    {
        assert forall|e: int| 0 <= e < self.edges@.len() implies #[trigger] self.edge_wf(e) by {
            if e < before.edges@.len() {
                assert(before.edge_wf(e));
            }
        }
        assert forall|n: int| 0 <= n < self.nodes@.len() implies #[trigger] self.node_wf(n) by {
            if n < before.nodes@.len() && self.kept(before, n) {
                assert(before.node_wf(n));
                if let Some(b) = before.nodes@[n].best {
                    assert(before.edge_wf(b as int));
                    assert(self.kept(before, before.edges@[b as int].from as int));
                }
            }
        }
        assert forall|n: int| 0 <= n < self.nodes@.len() implies #[trigger] self.inbound_wf(n) by {
            if n < before.nodes@.len() && self.kept(before, n) {
                self.lemma_kept_inbound(before, n);
            } else {
                assert(self.node_wf(n));
            }
        }
    }

    /// A node that is as it was in a well-formed arena which `self` extends
    /// has a well-formed inbound list.
    pub proof fn lemma_kept_inbound(&self, before: &Self, n: int)
        requires
            before.wf(),
            self.extends(before),
            0 <= n < before.nodes@.len(),
            self.kept(before, n),
        ensures
            self.inbound_edges(n) == before.inbound_edges(n),
            self.inbound_wf(n),
    {
        let head = before.nodes@[n].inbound;
        assert(before.node_wf(n));
        assert(before.inbound_wf(n));
        lemma_chain_prefix(before.edges@, self.edges@, head);
        let chain = before.inbound_edges(n);
        assert forall|k: int| 0 <= k < chain.len() implies {
            let e = self.edges@[#[trigger] chain[k] as int];
            &&& self.edges@[chain[k] as int] == before.edges@[chain[k] as int]
            &&& self.nodes@[e.from as int].value == before.nodes@[e.from as int].value
            &&& self.nodes@[e.from as int].flags.exact() == before.nodes@[e.from as int].flags.exact()
        } by {
            lemma_chain_ids(before.edges@, head, k);
            assert(before.edge_wf(chain[k] as int));
            assert(self.kept(before, before.edges@[chain[k] as int].from as int));
        }
        if !self.nodes@[n].flags.relaxed() && self.sources_exact(n) {
            assert forall|k: int| 0 <= k < before.inbound_edges(n).len() implies before.nodes@[before.edges@[#[trigger] before.inbound_edges(
                n,
            )[k] as int].from as int].flags.exact() by {
                assert(self.nodes@[self.edges@[self.inbound_edges(n)[k] as int].from as int].flags.exact());
            }
            assert(before.sources_exact(n));
        }
    }

    /// The inbound list of a node that took one more edge is well formed,
    /// when the node kept the greater of its value and what the new edge
    /// brings, took the new edge as its best or kept its best with its
    /// value, and is exact only if it was and the source of the new edge is.
    pub proof fn lemma_prepended_inbound(&self, before: &Self, v: int)
        requires
            before.wf(),
            before.settled@ <= v < before.nodes@.len(),
            self.settled@ == before.settled@,
            self.edges@.len() == before.edges@.len() + 1,
            self.edges@ == before.edges@.push(self.edges@[before.edges@.len() as int]),
            self.edges@[before.edges@.len() as int].next == before.nodes@[v].inbound,
            self.edges@[before.edges@.len() as int].from < before.settled@,
            self.nodes@ == before.nodes@.update(v, self.nodes@[v]),
            self.nodes@[v].inbound == Some(before.edges@.len() as usize),
            ({
                let edge = self.edges@[before.edges@.len() as int];
                let reached = sat_add_spec(before.nodes@[edge.from as int].value, edge.cost);
                let was = before.nodes@[v];
                let now = self.nodes@[v];
                &&& now.value >= reached
                &&& now.value >= was.value
                &&& (now.best == Some(before.edges@.len() as usize) && now.value == reached) || (
                now.best == was.best && now.value == was.value)
                &&& now.flags.exact() ==> !now.flags.relaxed() && was.flags.exact()
                    && before.nodes@[edge.from as int].flags.exact()
                &&& !now.flags.relaxed() ==> !was.flags.relaxed() && (now.flags.exact() == (
                was.flags.exact() && before.nodes@[edge.from as int].flags.exact()))
            }),
        ensures
            self.node_wf(v),
            self.inbound_wf(v),
            self.inbound_edges(v) == seq![before.edges@.len() as usize] + before.inbound_edges(v),
    {
        assert(before.edges@.len() == before.edges.len());
        let e_new = before.edges@.len() as usize;
        let edge = self.edges@[e_new as int];
        let old_chain = before.inbound_edges(v);
        assert(before.node_wf(v));
        assert(before.inbound_wf(v));
        lemma_chain_prefix(before.edges@, self.edges@, before.nodes@[v].inbound);
        let chain = self.inbound_edges(v);
        assert(before.nodes@[v].inbound == edge.next);
        assert(self.nodes@[v].inbound == Some(e_new));
        assert(chain == edge_chain(self.edges@, Some(e_new)));
        assert(old_chain == edge_chain(before.edges@, edge.next));
        assert(edge_chain(self.edges@, edge.next) == old_chain);
        match edge.next {
            Some(n) => {
                assert(n < e_new);
                assert(edge_chain(self.edges@, Some(e_new)) == seq![e_new] + edge_chain(self.edges@, Some(n)));
            },
            None => {
                assert(edge_chain(before.edges@, None::<usize>) =~= Seq::<usize>::empty());
                assert(old_chain =~= Seq::<usize>::empty());
                assert(edge_chain(self.edges@, Some(e_new)) == seq![e_new]);
            },
        }
        assert(chain =~= seq![e_new] + old_chain);
        assert forall|k: int| 0 <= k < chain.len() implies {
            let e = self.edges@[#[trigger] chain[k] as int];
            &&& self.nodes@[v].value >= sat_add_spec(self.nodes@[e.from as int].value, e.cost)
            &&& self.nodes@[v].flags.exact() ==> self.nodes@[e.from as int].flags.exact()
        } by {
            if k > 0 {
                let id = old_chain[k - 1];
                assert(chain[k] == id);
                lemma_chain_ids(before.edges@, before.nodes@[v].inbound, k - 1);
                assert(before.edge_wf(id as int));
            }
        }
        if let Some(b) = self.nodes@[v].best {
            if b == e_new {
                assert(chain[0] == b);
            } else {
                let k = choose|k: int| 0 <= k < old_chain.len() && #[trigger] old_chain[k] == b;
                assert(chain[k + 1] == b);
                assert(before.edge_wf(b as int));
            }
        }
        if !self.nodes@[v].flags.relaxed() && self.sources_exact(v) {
            assert(self.nodes@[self.edges@[self.inbound_edges(v)[0] as int].from as int].flags.exact());
            assert forall|k: int| 0 <= k < old_chain.len() implies before.nodes@[before.edges@[#[trigger] before.inbound_edges(
                v,
            )[k] as int].from as int].flags.exact() by {
                let id = old_chain[k];
                assert(chain[k + 1] == id);
                lemma_chain_ids(before.edges@, before.nodes@[v].inbound, k);
                assert(before.edge_wf(id as int));
                assert(self.nodes@[self.edges@[self.inbound_edges(v)[k + 1] as int].from as int].flags.exact());
            }
            assert(before.sources_exact(v));
        }
    }

    /// The layer under construction names nodes that are not settled yet,
    /// each under its own state.
    pub open spec fn frontier_wf(&self) -> bool {
        forall|state: Arc<T>| #[trigger]
            self.next_l@.contains_key(state) ==> {
                &&& self.settled@ <= self.next_l@[state] < self.nodes@.len()
                &&& self.nodes@[self.next_l@[state] as int].state == state
            }
    }

    /// Every id that the diagram holds names a node of the arena.
    pub open spec fn ids_wf(&self) -> bool {
        &&& forall|i: int| 0 <= i < self.prev_l@.len() ==> #[trigger] self.prev_l@[i] < self.nodes@.len()
        &&& self.lel matches Some(lel) ==> forall|i: int|
            0 <= i < lel@.len() ==> #[trigger] lel@[i] < self.nodes@.len()
        &&& self.best_n matches Some(b) ==> b < self.nodes@.len()
    }

    /// The invariant of the diagram.
    pub open spec fn wf(&self) -> bool {
        &&& self.settled@ <= self.nodes@.len()
        &&& forall|e: int| 0 <= e < self.edges@.len() ==> #[trigger] self.edge_wf(e)
        &&& forall|n: int| 0 <= n < self.nodes@.len() ==> #[trigger] self.node_wf(n)
        &&& forall|n: int| 0 <= n < self.nodes@.len() ==> #[trigger] self.inbound_wf(n)
        &&& self.frontier_wf()
        &&& self.ids_wf()
    }

    /// The source of the best edge of node `n`, where the node has one.
    pub open spec fn best_source(&self, n: int) -> Option<int> {
        if 0 <= n < self.nodes@.len() {
            match self.nodes@[n].best {
                Some(b) => if b < self.edges@.len() && self.edges@[b as int].from < n {
                    Some(self.edges@[b as int].from as int)
                } else {
                    None
                },
                None => None,
            }
        } else {
            None
        }
    }

    /// The decisions along the best edges from node `n` back to the root of
    /// the diagram, the last decision first.
    pub open spec fn best_decisions(&self, n: int) -> Seq<Decision>
        decreases n,
    {
        match self.best_source(n) {
            Some(source) => seq![self.edges@[self.nodes@[n].best.unwrap() as int].decision]
                + self.best_decisions(source),
            None => Seq::empty(),
        }
    }

    /// The path of node `n`: the decisions that lead to the root of the
    /// diagram, followed by those along the best edges from `n` back to it.
    pub open spec fn best_path(&self, n: int) -> Seq<Decision> {
        self.root_pa@ + self.best_decisions(n)
    }

    /// The value at which the best path of node `n` starts, to which the
    /// costs of the edges of that path are added one after the other, each
    /// sum held to the range of `isize`.
    pub open spec fn path_value(&self, n: int) -> isize
        decreases n,
    {
        match self.best_source(n) {
            Some(source) => sat_add_spec(
                self.path_value(source),
                self.edges@[self.nodes@[n].best.unwrap() as int].cost,
            ),
            None => if 0 <= n < self.nodes@.len() {
                self.nodes@[n].value
            } else {
                0
            },
        }
    }

    /// Whether the best path of node `n` is a path of the problem: walking
    /// back along best edges, an exact node is met before any relaxed one.
    pub open spec fn exact_best_path(&self, n: int) -> bool
        decreases n,
    {
        if 0 <= n < self.nodes@.len() {
            if self.nodes@[n].flags.exact() {
                true
            } else if self.nodes@[n].flags.relaxed() {
                false
            } else {
                match self.best_source(n) {
                    Some(source) => self.exact_best_path(source),
                    None => true,
                }
            }
        } else {
            true
        }
    }

    /// The ids of the inbound edges of node `n`, the latest first.
    pub open spec fn inbound_edges(&self, n: int) -> Seq<usize> {
        edge_chain(self.edges@, self.nodes@[n].inbound)
    }

    /// Whether node `n` belongs to the layer under construction, which is
    /// the last layer once the compilation has ended.
    pub open spec fn in_last_layer(&self, n: int) -> bool {
        &&& 0 <= n < self.nodes@.len()
        &&& self.next_l@.contains_key(self.nodes@[n].state)
        &&& self.next_l@[self.nodes@[n].state] == n
    }

    /// The inbound edges of the first `upto` nodes of `nodes`, node after
    /// node, those of one node from the latest on: each edge with the node
    /// that it enters.
    pub open spec fn edges_into(&self, nodes: Seq<usize>, upto: int) -> Seq<(usize, usize)>
        decreases upto,
    {
        if upto <= 0 {
            Seq::empty()
        } else {
            self.edges_into(nodes, upto - 1) + self.inbound_edges(nodes[upto - 1] as int).map_values(
                |e: usize| (nodes[upto - 1], e),
            )
        }
    }

    /// An inbound list is its head followed by the list of the edge that
    /// the head names.
    pub proof fn lemma_chain_step(&self, e: usize)
        requires
            e < self.edges@.len(),
            self.edge_wf(e as int),
        ensures
            edge_chain(self.edges@, Some(e)) == seq![e] + edge_chain(
                self.edges@,
                self.edges@[e as int].next,
            ),
    {
        match self.edges@[e as int].next {
            Some(n) => {},
            None => {
                assert(edge_chain(self.edges@, None) =~= Seq::<usize>::empty());
                assert(seq![e] + Seq::<usize>::empty() =~= seq![e]);
            },
        }
    }

    /// The inbound edges of the first nodes of `nodes` come first among
    /// those of more of its nodes.
    pub proof fn lemma_edges_into_prefix(&self, nodes: Seq<usize>, fewer: int, more: int)
        requires
            0 <= fewer <= more,
        ensures
            self.edges_into(nodes, fewer).len() <= self.edges_into(nodes, more).len(),
            self.edges_into(nodes, more).take(self.edges_into(nodes, fewer).len() as int)
                == self.edges_into(nodes, fewer),
        decreases more,
    {
        if fewer < more {
            self.lemma_edges_into_prefix(nodes, fewer, more - 1);
            let shorter = self.edges_into(nodes, more - 1);
            let least = self.edges_into(nodes, fewer);
            assert(self.edges_into(nodes, more).take(least.len() as int) =~= shorter.take(
                least.len() as int,
            ));
        } else {
            assert(self.edges_into(nodes, more).take(self.edges_into(nodes, fewer).len() as int)
                =~= self.edges_into(nodes, fewer));
        }
    }

    /// Where the `j`-th inbound edge of the `m`-th node of `nodes` stands
    /// among the inbound edges of all the nodes of `nodes`.
    pub proof fn lemma_edges_into_index(&self, nodes: Seq<usize>, m: int, j: int)
        requires
            0 <= m < nodes.len(),
            0 <= j < self.inbound_edges(nodes[m] as int).len(),
        ensures
            self.edges_into(nodes, m).len() + j < self.edges_into(nodes, nodes.len() as int).len(),
            self.edges_into(nodes, nodes.len() as int)[self.edges_into(nodes, m).len() + j] == (
                nodes[m],
                self.inbound_edges(nodes[m] as int)[j],
            ),
            self.edges_into(nodes, m + 1).len() == self.edges_into(nodes, m).len()
                + self.inbound_edges(nodes[m] as int).len(),
    {
        let offset = self.edges_into(nodes, m).len() as int;
        let next = self.edges_into(nodes, m + 1);
        assert(next[offset + j] == (nodes[m], self.inbound_edges(nodes[m] as int)[j]));
        self.lemma_edges_into_prefix(nodes, m + 1, nodes.len() as int);
        let all = self.edges_into(nodes, nodes.len() as int);
        assert(all.take(next.len() as int)[offset + j] == all[offset + j]);
    }

    /// The inbound edges of the first nodes of a sequence do not depend on
    /// the nodes that follow them.
    pub proof fn lemma_edges_into_stable(&self, nodes: Seq<usize>, longer: Seq<usize>, upto: int)
        requires
            0 <= upto <= nodes.len() <= longer.len(),
            forall|q: int| 0 <= q < upto ==> #[trigger] longer[q] == nodes[q],
        ensures
            self.edges_into(longer, upto) == self.edges_into(nodes, upto),
        decreases upto,
    {
        if upto > 0 {
            self.lemma_edges_into_stable(nodes, longer, upto - 1);
            assert(longer[upto - 1] == nodes[upto - 1]);
        }
    }

    /// The value of the best node, if the diagram has one.
    pub open spec fn best_value_spec(&self) -> Option<isize> {
        match self.best_n {
            Some(id) => Some(self.nodes@[id as int].value),
            None => None,
        }
    }

    /// The path of the best node, if the diagram has one.
    pub open spec fn best_solution_spec(&self) -> Option<Seq<Decision>> {
        match self.best_n {
            Some(id) => Some(self.best_path(id as int)),
            None => None,
        }
    }
}

} // verus!
