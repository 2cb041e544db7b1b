//! Relaxation of a layer: its least promising nodes are merged into one
//! node, and every edge that entered one of them is redirected to it.

use crate::abstraction::{Relaxation, StateIter, StateRanking};
use crate::common::{sat_add, sat_add_spec, Decision};
use crate::flags::NodeFlags;
use crate::index::same_state;
use crate::mdd::arena::{edge_chain, Edge, Node, WithLongArcs};
use std::hash::Hash;
use std::sync::Arc;
use vstd::prelude::*;
use vstd::std_specs::hash::obeys_key_model;

verus! {

/// Asks the relaxation for the state that stands for all of `states`,
/// which it is shown from the first on.
pub fn merge_states<R: Relaxation>(relaxation: &R, states: &Vec<Arc<R::State>>) -> (merged:
    R::State)
    ensures
        exists|cursor: &mut StateIter<'_, R::State>|
            {
                &&& #[trigger] call_ensures(R::merge, (relaxation, cursor), merged)
                &&& cursor.position == 0
                &&& cursor.states@ == states@
            },
{
    let mut cursor = StateIter::new(states);
    relaxation.merge(&mut cursor)
}

impl<T: Eq + Hash> WithLongArcs<T> {
    /// The diagram after an edge from settled node `from`, with `decision`
    /// and `cost`, was added to the inbound list of the node `merged`, when
    /// `before` is the diagram before it. The node takes the value along the
    /// new edge, and that edge as its best, unless its value was greater:
    /// of two equal contributions the later one wins.
    pub open spec fn is_after_redirect(
        &self,
        before: &Self,
        merged: usize,
        from: usize,
        decision: Decision,
        cost: isize,
    ) -> bool {
        let e = before.edges@.len();
        let was = before.nodes@[merged as int];
        let now = self.nodes@[merged as int];
        let reached = sat_add_spec(before.nodes@[from as int].value, cost);
        &&& self.same_frame(before)
        &&& self.next_l@ == before.next_l@
        &&& self.edges@ == before.edges@.push((Edge { from, decision, cost, next: was.inbound }))
        &&& self.nodes@ == before.nodes@.update(merged as int, now)
        &&& now.state == was.state
        &&& now.value_bot == was.value_bot
        &&& now.rub == was.rub
        &&& now.flags == was.flags
        &&& now.inbound == Some(e as usize)
        &&& now.value == if reached >= was.value {
            reached
        } else {
            was.value
        }
        &&& now.best == if reached >= was.value {
            Some(e as usize)
        } else {
            was.best
        }
    }

    /// Adds an edge from settled node `from_id` to the inbound list of the
    /// merged node `merged_id`, which is not settled yet and not exact.
    pub fn redirect_edge(&mut self, merged_id: usize, from_id: usize, decision: Decision, cost: isize)
        requires
            old(self).wf(),
            from_id < old(self).settled@,
            old(self).settled@ <= merged_id < old(self).nodes@.len(),
            !old(self).nodes@[merged_id as int].flags.exact(),
        ensures
            final(self).wf(),
            final(self).is_after_redirect(old(self), merged_id, from_id, decision, cost),
    {
        let ghost before = *self;
        let edge_id = self.edges.len();
        assert(self.node_wf(from_id as int));
        assert(self.node_wf(merged_id as int));
        let reached = sat_add(self.nodes[from_id].value, cost);
        let inbound = self.nodes[merged_id].inbound;
        self.edges.push(Edge { from: from_id, decision, cost, next: inbound });
        self.nodes[merged_id].inbound = Some(edge_id);
        if reached >= self.nodes[merged_id].value {
            self.nodes[merged_id].best = Some(edge_id);
            self.nodes[merged_id].value = reached;
        }
        proof {
            assert(self.nodes@ =~= before.nodes@.update(
                merged_id as int,
                self.nodes@[merged_id as int],
            ));
            self.lemma_prepended_inbound(&before, merged_id as int);
            assert forall|state: Arc<T>| #[trigger] self.next_l@.contains_key(state) implies {
                &&& self.settled@ <= self.next_l@[state] < self.nodes@.len()
                &&& self.nodes@[self.next_l@[state] as int].state == state
            } by {
                assert(before.next_l@.contains_key(state));
            }
            self.lemma_extends_wf(&before);
        }
    }

    /// The first of the first `count` nodes of `layer` that stands for
    /// `state`, if there is one.
    pub fn find_state(&self, layer: &Vec<usize>, count: usize, state: &Arc<T>) -> (found: Option<
        usize,
    >)
        requires
            obeys_key_model::<T>(),
            count <= layer@.len(),
            forall|i: int| 0 <= i < layer@.len() ==> #[trigger] layer@[i] < self.nodes@.len(),
        ensures
            found matches Some(id) ==> exists|i: int|
                {
                    &&& 0 <= i < count
                    &&& #[trigger] layer@[i] == id
                    &&& self.nodes@[id as int].state == *state
                    &&& forall|k: int|
                        0 <= k < i ==> self.nodes@[#[trigger] layer@[k] as int].state != *state
                },
            found is None ==> forall|i: int|
                0 <= i < count ==> self.nodes@[#[trigger] layer@[i] as int].state != *state,
    {
        let mut i: usize = 0;
        while i < count
            invariant
                obeys_key_model::<T>(),
                i <= count <= layer@.len(),
                forall|k: int| 0 <= k < layer@.len() ==> #[trigger] layer@[k] < self.nodes@.len(),
                forall|k: int|
                    0 <= k < i ==> self.nodes@[#[trigger] layer@[k] as int].state != *state,
            decreases count - i,
        {
            let id = layer[i];
            if same_state(&self.nodes[id].state, state) {
                return Some(id);
            }
            i += 1;
        }
        None
    }

    /// Makes a node that is not settled yet a merged node: relaxed, and
    /// exact no more.
    pub fn mark_merged(&mut self, id: usize)
        requires
            old(self).wf(),
            old(self).settled@ <= id < old(self).nodes@.len(),
        ensures
            final(self).wf(),
            final(self).same_frame(old(self)),
            final(self).next_l@ == old(self).next_l@,
            final(self).edges@ == old(self).edges@,
            final(self).nodes@ == old(self).nodes@.update(id as int, final(self).nodes@[id as int]),
            final(self).nodes@[id as int].state == old(self).nodes@[id as int].state,
            final(self).nodes@[id as int].value == old(self).nodes@[id as int].value,
            final(self).nodes@[id as int].value_bot == old(self).nodes@[id as int].value_bot,
            final(self).nodes@[id as int].rub == old(self).nodes@[id as int].rub,
            final(self).nodes@[id as int].best == old(self).nodes@[id as int].best,
            final(self).nodes@[id as int].inbound == old(self).nodes@[id as int].inbound,
            final(self).nodes@[id as int].flags.relaxed(),
            !final(self).nodes@[id as int].flags.exact(),
            final(self).nodes@[id as int].flags.marked() == old(self).nodes@[id as int].flags.marked(),
            final(self).nodes@[id as int].flags.cutset() == old(self).nodes@[id as int].flags.cutset(),
    {
        let ghost before = *self;
        let mut flags = self.nodes[id].flags;
        flags.set_relaxed(true);
        flags.set_exact(false);
        self.nodes[id].flags = flags;
        proof {
            assert(self.nodes@ =~= before.nodes@.update(id as int, self.nodes@[id as int]));
            assert(before.node_wf(id as int));
            assert(before.inbound_wf(id as int));
            assert(self.node_wf(id as int)) by {
                if let Some(b) = before.nodes@[id as int].best {
                    assert(before.edge_wf(b as int));
                }
            }
            assert(self.inbound_wf(id as int)) by {
                let chain = before.inbound_edges(id as int);
                assert forall|k: int| 0 <= k < chain.len() implies self.nodes@[id as int].value
                    >= crate::common::sat_add_spec(
                    self.nodes@[self.edges@[#[trigger] chain[k] as int].from as int].value,
                    self.edges@[chain[k] as int].cost,
                ) by {
                    crate::mdd::arena::lemma_chain_ids(
                        before.edges@,
                        before.nodes@[id as int].inbound,
                        k,
                    );
                    assert(before.edge_wf(chain[k] as int));
                }
            }
            assert forall|state: Arc<T>| #[trigger] self.next_l@.contains_key(state) implies {
                &&& self.settled@ <= self.next_l@[state] < self.nodes@.len()
                &&& self.nodes@[self.next_l@[state] as int].state == state
            } by {
                assert(before.next_l@.contains_key(state));
            }
            self.lemma_extends_wf(&before);
        }
    }

    /// Adds a node for a merged state: relaxed, without any edge yet, its
    /// value the least integer.
    pub fn add_merged_node(&mut self, state: Arc<T>) -> (id: usize)
        requires
            old(self).wf(),
        ensures
            final(self).wf(),
            id == old(self).nodes@.len(),
            final(self).same_frame(old(self)),
            final(self).next_l@ == old(self).next_l@,
            final(self).edges@ == old(self).edges@,
            final(self).nodes@.len() == old(self).nodes@.len() + 1,
            final(self).nodes@.take(id as int) == old(self).nodes@,
            final(self).nodes@[id as int].state == state,
            final(self).nodes@[id as int].value == isize::MIN,
            final(self).nodes@[id as int].value_bot == isize::MIN,
            final(self).nodes@[id as int].rub == isize::MAX,
            final(self).nodes@[id as int].best is None,
            final(self).nodes@[id as int].inbound is None,
            final(self).nodes@[id as int].flags.relaxed(),
            !final(self).nodes@[id as int].flags.exact(),
            !final(self).nodes@[id as int].flags.marked(),
            !final(self).nodes@[id as int].flags.cutset(),
    {
        let ghost before = *self;
        let id = self.nodes.len();
        self.nodes.push(
            Node {
                state,
                value: isize::MIN,
                value_bot: isize::MIN,
                best: None,
                inbound: None,
                rub: isize::MAX,
                flags: NodeFlags::new_relaxed(),
            },
        );
        proof {
            assert(self.nodes@.take(id as int) =~= before.nodes@);
            assert(self.inbound_edges(id as int) =~= Seq::<usize>::empty());
            assert forall|state: Arc<T>| #[trigger] self.next_l@.contains_key(state) implies {
                &&& self.settled@ <= self.next_l@[state] < self.nodes@.len()
                &&& self.nodes@[self.next_l@[state] as int].state == state
            } by {
                assert(before.next_l@.contains_key(state));
            }
            self.lemma_extends_wf(&before);
        }
        id
    }

    /// What the merged node `merged` starts from: its value, its best edge
    /// and its inbound list in `before`, or those of a new node.
    pub open spec fn merge_start(before: &Self, merged: usize) -> (isize, Option<usize>, Option<usize>) {
        if merged < before.nodes@.len() {
            (
                before.nodes@[merged as int].value,
                before.nodes@[merged as int].best,
                before.nodes@[merged as int].inbound,
            )
        } else {
            (isize::MIN, None, None)
        }
    }

    /// Says that the `u`-th edge added by a merge redirects the `u`-th of
    /// the inbound edges of the nodes of `tail`: it has the source and the
    /// decision of that edge and a cost that the relaxation gave for it, and
    /// it stands in the inbound list of the merged node before the edge that
    /// was added just before it.
    pub open spec fn redirects<R: Relaxation<State = T>>(
        &self,
        before: &Self,
        relaxation: &R,
        tail: Seq<usize>,
        merged: usize,
        u: int,
    ) -> bool {
        let first = before.edges@.len();
        let (node, edge_id) = before.edges_into(tail, tail.len() as int)[u];
        let was = before.edges@[edge_id as int];
        let now = self.edges@[first + u];
        &&& now.from == was.from
        &&& now.decision == was.decision
        &&& call_ensures(
            R::relax,
            (
                relaxation,
                &*before.nodes@[was.from as int].state,
                &*before.nodes@[node as int].state,
                &*self.nodes@[merged as int].state,
                was.decision,
                was.cost,
            ),
            now.cost,
        )
        &&& now.next == if u == 0 {
            Self::merge_start(before, merged).2
        } else {
            Some((first + u - 1) as usize)
        }
    }

    /// Says that every edge from `first` on that was added after the best
    /// edge of node `merged` brings less than the value of that node: of
    /// edges that bring the same, the latest is the best.
    pub open spec fn later_lose(&self, first: int, merged: usize) -> bool {
        forall|e: int|
            first <= e < self.edges@.len() && (self.nodes@[merged as int].best matches Some(b) ==> b
                < e) ==> sat_add_spec(
                self.nodes@[(#[trigger] self.edges@[e]).from as int].value,
                self.edges@[e].cost,
            ) < self.nodes@[merged as int].value
    }

    /// The diagram in the course of a merge of the nodes of `tail` into the
    /// node `merged`, after `count` edges were redirected, when `before` is
    /// the diagram before the merge: no other node and no edge of `before`
    /// has changed, the node `merged` is relaxed and not exact, and the new
    /// edges redirect the first `count` inbound edges of the nodes of
    /// `tail`, in their order.
    pub open spec fn is_merging<R: Relaxation<State = T>>(
        &self,
        before: &Self,
        relaxation: &R,
        tail: Seq<usize>,
        merged: usize,
        count: int,
    ) -> bool {
        let first = before.edges@.len();
        let start = Self::merge_start(before, merged);
        let now = self.nodes@[merged as int];
        &&& self.same_frame(before)
        &&& self.next_l@ == before.next_l@
        &&& self.edges@.len() == first + count
        &&& forall|e: int| 0 <= e < first ==> #[trigger] self.edges@[e] == before.edges@[e]
        &&& forall|u: int|
            0 <= u < count ==> #[trigger] self.redirects(before, relaxation, tail, merged, u)
        &&& before.settled@ <= merged < self.nodes@.len()
        &&& merged <= before.nodes@.len()
        &&& self.nodes@.len() == if merged < before.nodes@.len() {
            before.nodes@.len()
        } else {
            before.nodes@.len() + 1
        }
        &&& forall|n: int|
            0 <= n < before.nodes@.len() && n != merged ==> #[trigger] self.nodes@[n]
                == before.nodes@[n]
        &&& now.flags.relaxed()
        &&& !now.flags.exact()
        &&& now.value >= start.0
        &&& now.inbound == if count == 0 {
            start.2
        } else {
            Some((first + count - 1) as usize)
        }
        &&& now.best matches Some(b) ==> b >= first || (now.best == start.1 && now.value == start.0)
        &&& now.best is None ==> start.1 is None && now.value == start.0
        &&& self.later_lose(first as int, merged)
        &&& merged < before.nodes@.len() ==> {
            let was = before.nodes@[merged as int];
            &&& now.state == was.state
            &&& now.value_bot == was.value_bot
            &&& now.rub == was.rub
            &&& now.flags.marked() == was.flags.marked()
            &&& now.flags.cutset() == was.flags.cutset()
        }
        &&& merged >= before.nodes@.len() ==> {
            &&& now.value_bot == isize::MIN
            &&& now.rub == isize::MAX
            &&& !now.flags.marked()
            &&& !now.flags.cutset()
        }
    }

    /// The diagram after the nodes of `tail` were merged into the node
    /// `merged`, when `before` is the diagram before it: every inbound edge
    /// of every node of `tail` was redirected, in the order of `tail` and,
    /// for one node, from its latest edge on.
    pub open spec fn is_after_merge<R: Relaxation<State = T>>(
        &self,
        before: &Self,
        relaxation: &R,
        tail: Seq<usize>,
        merged: usize,
    ) -> bool {
        self.is_merging(
            before,
            relaxation,
            tail,
            merged,
            before.edges_into(tail, tail.len() as int).len() as int,
        )
    }

    /// Redirects every inbound edge of the node `dropped`, the `m`-th of
    /// `tail`, to the merged node, from the latest edge on.
    fn redirect_inbound<R: Relaxation<State = T>>(
        &mut self,
        relaxation: &R,
        dropped: usize,
        merged_id: usize,
        merged: &Arc<T>,
        Ghost(before): Ghost<Self>,
        Ghost(tail): Ghost<Seq<usize>>,
        Ghost(m): Ghost<int>,
    )
        requires
            before.wf(),
            old(self).wf(),
            0 <= m < tail.len(),
            dropped == tail[m],
            dropped < before.nodes@.len(),
            dropped != merged_id,
            old(self).nodes@[merged_id as int].state == *merged,
            old(self).is_merging(
                &before,
                relaxation,
                tail,
                merged_id,
                before.edges_into(tail, m).len() as int,
            ),
        ensures
            final(self).wf(),
            final(self).nodes@[merged_id as int].state == *merged,
            final(self).is_merging(
                &before,
                relaxation,
                tail,
                merged_id,
                before.edges_into(tail, m + 1).len() as int,
            ),
    {
        let ghost chain = before.inbound_edges(dropped as int);
        let ghost offset = before.edges_into(tail, m).len() as int;
        let ghost mut j: int = 0;
        proof {
            assert(before.node_wf(dropped as int));
            assert(chain.skip(0) =~= chain);
            if chain.len() > 0 {
                before.lemma_edges_into_index(tail, m, 0);
            } else {
                assert(before.edges_into(tail, m + 1) =~= before.edges_into(tail, m));
            }
        }
        let mut edge_id: Option<usize> = self.nodes[dropped].inbound;
        while edge_id.is_some()
            invariant
                before.wf(),
                self.wf(),
                0 <= m < tail.len(),
                dropped == tail[m],
                dropped < before.nodes@.len(),
                dropped != merged_id,
                chain == before.inbound_edges(dropped as int),
                offset == before.edges_into(tail, m).len(),
                before.edges_into(tail, m + 1).len() == offset + chain.len(),
                0 <= j <= chain.len(),
                edge_chain(before.edges@, edge_id) == chain.skip(j),
                edge_id matches Some(e) ==> e < before.edges@.len(),
                self.nodes@[merged_id as int].state == *merged,
                self.is_merging(&before, relaxation, tail, merged_id, offset + j),
            decreases
                (match edge_id {
                    Some(e) => e + 1,
                    None => 0,
                }),
        {
            let ghost during = *self;
            let eid = edge_id.unwrap();
            let edge = self.edges[eid];
            proof {
                assert(before.edge_wf(eid as int));
                before.lemma_chain_step(eid);
                assert(chain.skip(j)[0] == eid);
                assert(chain.skip(j).skip(1) =~= chain.skip(j + 1));
                assert((seq![eid] + edge_chain(before.edges@, edge.next)).skip(1) =~= edge_chain(
                    before.edges@,
                    edge.next,
                ));
                before.lemma_edges_into_index(tail, m, j);
                assert(self.nodes@[edge.from as int] == before.nodes@[edge.from as int]);
                assert(self.nodes@[dropped as int] == before.nodes@[dropped as int]);
            }
            let rcost = relaxation.relax(
                &*self.nodes[edge.from].state,
                &*self.nodes[dropped].state,
                &**merged,
                edge.decision,
                edge.cost,
            );
            self.redirect_edge(merged_id, edge.from, edge.decision, rcost);
            edge_id = edge.next;
            proof {
                self.lemma_redirect_keeps_merging(
                    &during,
                    &before,
                    relaxation,
                    tail,
                    merged_id,
                    offset + j,
                    rcost,
                    dropped,
                    eid,
                );
                j = j + 1;
            }
        }
        proof {
            assert(chain.skip(j).len() == 0);
        }
    }

    /// One more redirected edge keeps what holds in the course of a merge.
    pub proof fn lemma_redirect_keeps_merging<R: Relaxation<State = T>>(
        &self,
        during: &Self,
        before: &Self,
        relaxation: &R,
        tail: Seq<usize>,
        merged: usize,
        count: int,
        rcost: isize,
        dropped: usize,
        eid: usize,
    )
        requires
            before.wf(),
            during.wf(),
            count >= 0,
            during.is_merging(before, relaxation, tail, merged, count),
            eid < before.edges@.len(),
            dropped < before.nodes@.len(),
            dropped != merged,
            count < before.edges_into(tail, tail.len() as int).len(),
            before.edges_into(tail, tail.len() as int)[count] == (dropped, eid),
            call_ensures(
                R::relax,
                (
                    relaxation,
                    &*before.nodes@[before.edges@[eid as int].from as int].state,
                    &*before.nodes@[dropped as int].state,
                    &*during.nodes@[merged as int].state,
                    before.edges@[eid as int].decision,
                    before.edges@[eid as int].cost,
                ),
                rcost,
            ),
            self.is_after_redirect(
                during,
                merged,
                before.edges@[eid as int].from,
                before.edges@[eid as int].decision,
                rcost,
            ),
        ensures
            self.is_merging(before, relaxation, tail, merged, count + 1),
    {
        let first = before.edges@.len() as int;
        assert(before.edges@.len() == before.edges.len());
        assert(during.edges@.len() == during.edges.len());
        assert(self.edges@.len() == self.edges.len());
        assert(before.edge_wf(eid as int));
        let source = before.edges@[eid as int].from as int;
        assert(source != merged);
        assert forall|u: int| 0 <= u < count + 1 implies #[trigger] self.redirects(
            before,
            relaxation,
            tail,
            merged,
            u,
        ) by {
            if u < count {
                assert(during.redirects(before, relaxation, tail, merged, u));
                assert(self.edges@[first + u] == during.edges@[first + u]);
            }
        }
        assert forall|n: int|
            0 <= n < before.nodes@.len() && n != merged implies #[trigger] self.nodes@[n]
            == before.nodes@[n] by {
            assert(during.nodes@[n] == before.nodes@[n]);
        }
        assert(self.later_lose(first, merged)) by {
            assert forall|e: int|
                first <= e < self.edges@.len() && (self.nodes@[merged as int].best matches Some(b)
                    ==> b < e) implies sat_add_spec(
                self.nodes@[(#[trigger] self.edges@[e]).from as int].value,
                self.edges@[e].cost,
            ) < self.nodes@[merged as int].value by {
                if e < first + count {
                    assert(self.edges@[e] == during.edges@[e]);
                    assert(during.edge_wf(e));
                    assert(during.redirects(before, relaxation, tail, merged, e - first));
                }
            }
        }
    }

    /// Says that `self` and `kept` are the diagram and the layer after the
    /// layer `layer` of the diagram `before` was relaxed to `max_width`. The
    /// layer is ordered from the most to the least promising node. The
    /// relaxation, shown the states of the nodes from the `max_width`-th on,
    /// gives the state of the merged node, which is the first of the nodes
    /// before them that stands for that state, or a new node where none
    /// does; every inbound edge of the nodes it was shown is redirected to
    /// the merged node. Then `kept` is the first `max_width` nodes where one
    /// of them is the merged node, else the first `max_width - 1` and the
    /// new node.
    pub open spec fn is_relaxation_of<R: Relaxation<State = T>, K: StateRanking<State = T>>(
        &self,
        before: &Self,
        relaxation: &R,
        ranking: &K,
        max_width: usize,
        layer: Seq<usize>,
        kept: Seq<usize>,
    ) -> bool {
        exists|sorted: Seq<usize>, merged: usize, cursor: &mut StateIter<'_, T>|
            {
                &&& sorted.to_multiset() == layer.to_multiset()
                &&& before.ordered(ranking, sorted)
                &&& #[trigger] call_ensures(
                    R::merge,
                    (relaxation, cursor),
                    *self.nodes@[merged as int].state,
                )
                &&& cursor.position == 0
                &&& before.shows_states(cursor.states@, sorted.skip(max_width - 1))
                &&& #[trigger] self.is_after_merge(
                    before,
                    relaxation,
                    sorted.skip(max_width - 1),
                    merged,
                )
                &&& if merged < before.nodes@.len() {
                    &&& kept == sorted.take(max_width as int)
                    &&& exists|w: int|
                        {
                            &&& 0 <= w < max_width - 1
                            &&& #[trigger] sorted[w] == merged
                            &&& forall|k: int|
                                0 <= k < w ==> before.nodes@[#[trigger] sorted[k] as int].state
                                    != self.nodes@[merged as int].state
                        }
                } else {
                    &&& kept == sorted.take(max_width - 1).push(merged)
                    &&& forall|i: int|
                        0 <= i < max_width - 1 ==> before.nodes@[#[trigger] sorted[i] as int].state
                            != self.nodes@[merged as int].state
                }
            }
    }

    /// Merges the tail of a layer that is wider than `max_width` and names
    /// no node twice. The layer is ordered from the most to the least
    /// promising node; its first `max_width - 1` nodes are kept, the others
    /// are merged: the relaxation gives the merged state, the first kept
    /// node that stands for that state becomes the merged node, or a new
    /// node where none does, and every inbound edge of a merged node is
    /// redirected to it at the cost that the relaxation gives. The layer is
    /// then its first `max_width` nodes where a kept node was taken, else
    /// the kept nodes and the new one.
    pub fn relax<R: Relaxation<State = T>, K: StateRanking<State = T>>(
        &mut self,
        relaxation: &R,
        ranking: &K,
        max_width: usize,
        curr_l: &mut Vec<usize>,
    )
        requires
            obeys_key_model::<T>(),
            old(self).wf(),
            1 <= max_width < old(curr_l)@.len(),
            old(curr_l)@.no_duplicates(),
            forall|i: int|
                0 <= i < old(curr_l)@.len() ==> old(self).settled@ <= #[trigger] old(curr_l)@[i]
                    < old(self).nodes@.len(),
        ensures
            final(self).wf(),
            forall|i: int|
                0 <= i < final(curr_l)@.len() ==> final(self).settled@ <= #[trigger] final(curr_l)@[i]
                    < final(self).nodes@.len(),
            final(self).is_relaxation_of(
                old(self),
                relaxation,
                ranking,
                max_width,
                old(curr_l)@,
                final(curr_l)@,
            ),
    {
        let ghost before = *self;
        self.sort_layer(ranking, curr_l);
        let ghost sorted = curr_l@;
        let keep: usize = max_width - 1;
        let ghost tail = sorted.skip(keep as int);
        proof {
            assert forall|i: int| 0 <= i < sorted.len() implies before.settled@ <= #[trigger] sorted[i]
                < before.nodes@.len() by {
                assert(sorted.contains(sorted[i]));
                vstd::seq_lib::to_multiset_contains(sorted, sorted[i]);
                vstd::seq_lib::to_multiset_contains(old(curr_l)@, sorted[i]);
            }
            old(curr_l)@.lemma_multiset_has_no_duplicates();
            sorted.lemma_multiset_has_no_duplicates_conv();
        }
        let mut tail_states: Vec<Arc<T>> = Vec::new();
        let mut i: usize = keep;
        while i < curr_l.len()
            invariant
                keep <= i <= curr_l@.len(),
                curr_l@ == sorted,
                *self == before,
                forall|k: int| 0 <= k < sorted.len() ==> #[trigger] sorted[k] < before.nodes@.len(),
                tail_states@.len() == i - keep,
                forall|k: int|
                    0 <= k < i - keep ==> #[trigger] tail_states@[k] == before.nodes@[sorted[keep
                        + k] as int].state,
            decreases curr_l@.len() - i,
        {
            tail_states.push(self.nodes[curr_l[i]].state.clone());
            i += 1;
        }
        proof {
            assert forall|k: int| 0 <= k < tail.len() implies #[trigger] tail_states@[k]
                == before.nodes@[tail[k] as int].state by {
                assert(tail[k] == sorted[keep + k]);
            }
        }
        let merged: Arc<T> = Arc::new(merge_states(relaxation, &tail_states));
        let ghost shown_cursor = choose|cursor: &mut StateIter<'_, T>|
            {
                &&& #[trigger] call_ensures(R::merge, (relaxation, cursor), *merged)
                &&& cursor.position == 0
                &&& cursor.states@ == tail_states@
            };
        proof {
            assert(before.shows_states(shown_cursor.states@, tail));
        }
        let recycled = self.find_state(curr_l, keep, &merged);
        let ghost found_at: int = if recycled is Some {
            choose|w: int|
                {
                    &&& 0 <= w < keep
                    &&& #[trigger] sorted[w] == recycled.unwrap()
                    &&& before.nodes@[recycled.unwrap() as int].state == *merged
                    &&& forall|k: int|
                        0 <= k < w ==> before.nodes@[#[trigger] sorted[k] as int].state != *merged
                }
        } else {
            0
        };
        let merged_id: usize = match recycled {
            Some(id) => id,
            None => self.add_merged_node(merged.clone()),
        };
        self.mark_merged(merged_id);
        proof {
            assert(self.nodes@[merged_id as int].state == *merged);
            assert(before.edges@.len() == before.edges.len());
            assert(before.node_wf(merged_id as int) || merged_id >= before.nodes@.len());
            assert(self.later_lose(before.edges@.len() as int, merged_id));
            assert(self.is_merging(&before, relaxation, tail, merged_id, 0));
            assert(before.edges_into(tail, 0) =~= Seq::<(usize, usize)>::empty());
        }
        let mut i: usize = keep;
        while i < curr_l.len()
            invariant
                keep <= i <= curr_l@.len(),
                curr_l@ == sorted,
                sorted.no_duplicates(),
                tail == sorted.skip(keep as int),
                before.wf(),
                self.wf(),
                recycled is Some ==> {
                    &&& 0 <= found_at < keep
                    &&& sorted[found_at] == merged_id
                    &&& forall|k: int|
                        0 <= k < found_at ==> before.nodes@[#[trigger] sorted[k] as int].state
                            != *merged
                },
                recycled is None ==> merged_id == before.nodes@.len() && forall|k: int|
                    0 <= k < keep ==> before.nodes@[#[trigger] sorted[k] as int].state != *merged,
                forall|k: int|
                    0 <= k < sorted.len() ==> before.settled@ <= #[trigger] sorted[k]
                        < before.nodes@.len(),
                self.nodes@[merged_id as int].state == *merged,
                call_ensures(R::merge, (relaxation, shown_cursor), *merged),
                shown_cursor.position == 0,
                before.shows_states(shown_cursor.states@, tail),
                self.is_merging(
                    &before,
                    relaxation,
                    tail,
                    merged_id,
                    before.edges_into(tail, i - keep).len() as int,
                ),
            decreases curr_l@.len() - i,
        {
            let dropped = curr_l[i];
            proof {
                assert(dropped == tail[i - keep]);
                if recycled is Some {
                    assert(sorted[found_at] != sorted[i as int]);
                }
            }
            self.redirect_inbound(
                relaxation,
                dropped,
                merged_id,
                &merged,
                Ghost(before),
                Ghost(tail),
                Ghost(i - keep),
            );
            i += 1;
        }
        if recycled.is_some() {
            curr_l.truncate(max_width);
        } else {
            curr_l.truncate(keep);
            curr_l.push(merged_id);
        }
        proof {
            assert(before.ordered(ranking, sorted));
            assert(tail.len() == sorted.len() - keep);
            if recycled.is_some() {
                assert(sorted[found_at] == merged_id);
            } else {
                assert(curr_l@ =~= sorted.take(keep as int).push(merged_id));
            }
            assert(self.is_after_merge(&before, relaxation, tail, merged_id));
            assert(call_ensures(
                R::merge,
                (relaxation, shown_cursor),
                *self.nodes@[merged_id as int].state,
            ));
        }
    }

    /// Says that `states` are the states of the nodes `ids`, in their order.
    pub open spec fn shows_states(&self, states: Seq<Arc<T>>, ids: Seq<usize>) -> bool {
        &&& states.len() == ids.len()
        &&& forall|k: int|
            0 <= k < ids.len() ==> #[trigger] states[k] == self.nodes@[ids[k] as int].state
    }
}

} // verus!
