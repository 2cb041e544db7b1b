//! Local bounds: walking up from the last layer, each node that is reached
//! is marked and learns the length of a longest path below it.

use crate::common::{max_spec, sat_add, sat_add_spec};
use crate::index::index_entries;
use crate::mdd::arena::{edge_chain, lemma_chain_ids, Node, WithLongArcs};
use std::hash::Hash;
use vstd::prelude::*;
use vstd::std_specs::hash::obeys_key_model;

verus! {

/// How many of the first `upto` nodes are not marked.
pub open spec fn unmarked_count<T>(nodes: Seq<Node<T>>, upto: int) -> nat
    decreases upto,
{
    if upto <= 0 {
        0
    } else {
        unmarked_count(nodes, upto - 1) + if nodes[upto - 1].flags.marked() {
            0nat
        } else {
            1nat
        }
    }
}

/// Marking nodes never raises the number of unmarked nodes, and marking a
/// node that was not marked lowers it.
pub proof fn lemma_marking_counts<T>(before: Seq<Node<T>>, after: Seq<Node<T>>, upto: int)
    requires
        before.len() == after.len(),
        0 <= upto <= before.len(),
        forall|n: int| 0 <= n < before.len() && before[n].flags.marked() ==> after[n].flags.marked(),
    ensures
        unmarked_count(after, upto) <= unmarked_count(before, upto),
        (exists|n: int| 0 <= n < upto && !before[n].flags.marked() && after[n].flags.marked())
            ==> unmarked_count(after, upto) < unmarked_count(before, upto),
    decreases upto,
{
    if upto > 0 {
        lemma_marking_counts(before, after, upto - 1);
        if exists|n: int| 0 <= n < upto && !before[n].flags.marked() && after[n].flags.marked() {
            let n = choose|n: int|
                0 <= n < upto && !before[n].flags.marked() && after[n].flags.marked();
            if n < upto - 1 {
                assert(exists|m: int|
                    0 <= m < upto - 1 && !before[m].flags.marked() && after[m].flags.marked());
            }
        }
    }
}

/// Says that `now` is `was` but for its marked bit and for the length of
/// the longest path below it, neither of which went back.
pub open spec fn same_but_below<T>(now: Node<T>, was: Node<T>) -> bool {
    &&& now.state == was.state
    &&& now.value == was.value
    &&& now.best == was.best
    &&& now.inbound == was.inbound
    &&& now.rub == was.rub
    &&& now.flags.exact() == was.flags.exact()
    &&& now.flags.relaxed() == was.flags.relaxed()
    &&& now.flags.cutset() == was.flags.cutset()
    &&& was.flags.marked() ==> now.flags.marked()
    &&& now.value_bot >= was.value_bot
    &&& !now.flags.marked() ==> now.value_bot == was.value_bot
}

impl<T: Eq + Hash> WithLongArcs<T> {
    /// Says that `self` is `before` with local bounds added: only the marked
    /// bits and the lengths below the nodes differ, and neither went back.
    pub open spec fn is_bounded_from(&self, before: &Self) -> bool {
        &&& self.root_pa@ == before.root_pa@
        &&& self.edges@ == before.edges@
        &&& self.next_l@ == before.next_l@
        &&& self.prev_l@ == before.prev_l@
        &&& self.lel == before.lel
        &&& self.best_n == before.best_n
        &&& self.exact == before.exact
        &&& self.settled@ == before.settled@
        &&& self.nodes@.len() == before.nodes@.len()
        &&& forall|n: int|
            0 <= n < self.nodes@.len() ==> same_but_below(#[trigger] self.nodes@[n], before.nodes@[n])
    }

    /// A diagram with local bounds added to a well-formed one is well
    /// formed.
    pub proof fn lemma_bounded_wf(&self, before: &Self)
        requires
            before.wf(),
            self.is_bounded_from(before),
        ensures
            self.wf(),
    {
        assert(self.same_shape(before));
        self.lemma_same_shape_wf(before);
    }

    /// Says that no node is marked or has a length below it yet.
    pub open spec fn unbounded(&self) -> bool {
        forall|n: int|
            0 <= n < self.nodes@.len() ==> !(#[trigger] self.nodes@[n]).flags.marked()
                && self.nodes@[n].value_bot == isize::MIN
    }

    /// Whether the walk goes on from node `v` once it is marked: it does
    /// from a node of the last layer and from any node outside the cutset.
    pub open spec fn walks_on(&self, v: int) -> bool {
        &&& 0 <= v < self.nodes@.len()
        &&& self.in_last_layer(v) || !self.nodes@[v].flags.cutset()
    }

    /// Says that the source of each of the first `count` edges that enter
    /// node `v` is marked, and that, where `v` is in the last layer, the
    /// source has a path at least as long as the cost of that edge below it.
    pub open spec fn expanded_upto(&self, v: int, count: int) -> bool {
        forall|k: int|
            0 <= k < count && k < self.inbound_edges(v).len() ==> {
                let e = self.edges@[#[trigger] self.inbound_edges(v)[k] as int];
                &&& self.nodes@[e.from as int].flags.marked()
                &&& self.in_last_layer(v) ==> self.nodes@[e.from as int].value_bot >= e.cost
            }
    }

    /// Says that the walk went on from node `v`: what `expanded_upto` says
    /// holds of every edge that enters it.
    pub open spec fn expanded(&self, v: int) -> bool {
        self.expanded_upto(v, self.inbound_edges(v).len() as int)
    }

    /// Says that node `n` is the source of the `k`-th edge that enters the
    /// marked node `v`, from which the walk goes on, and that the path below
    /// `n` is no longer than the path below `v` plus the cost of that edge.
    pub open spec fn reached_from(&self, n: int, v: int, k: int) -> bool {
        &&& self.walks_on(v)
        &&& self.nodes@[v].flags.marked()
        &&& 0 <= k < self.inbound_edges(v).len()
        &&& self.edges@[self.inbound_edges(v)[k] as int].from == n
        &&& 0 <= n < self.nodes@.len()
        &&& self.nodes@[n].value_bot <= sat_add_spec(
            self.nodes@[v].value_bot,
            self.edges@[self.inbound_edges(v)[k] as int].cost,
        )
    }

    /// Says that the length below the marked node `n` is accounted for: the
    /// node is in the last layer and the length is zero, or the node was
    /// reached from a marked node and the length is no more than what that
    /// node offers.
    pub open spec fn accounted(&self, n: int) -> bool {
        ||| self.in_last_layer(n) && self.nodes@[n].value_bot == 0
        ||| exists|v: int, k: int| #[trigger] self.reached_from(n, v, k)
    }

    /// Says that the marked nodes are those that the walk up from the last
    /// layer reaches: the nodes of the last layer are marked, with a path of
    /// length zero or more below them; the walk went on from every marked
    /// node that it does not stop at; and every marked node either is in the
    /// last layer, with a path of length zero below it, or is the source of
    /// an edge into a node from which the walk went on, with a path below it
    /// that is no longer than the path below that node plus the cost of the
    /// edge.
    pub open spec fn marks_closed(&self) -> bool {
        &&& forall|v: int|
            #![trigger self.nodes@[v]]
            self.in_last_layer(v) ==> self.nodes@[v].flags.marked() && self.nodes@[v].value_bot
                >= 0
        &&& forall|v: int|
            #![trigger self.nodes@[v]]
            self.walks_on(v) && self.nodes@[v].flags.marked() ==> self.expanded(v)
        &&& forall|n: int|
            #![trigger self.nodes@[n]]
            0 <= n < self.nodes@.len() && self.nodes@[n].flags.marked() ==> self.accounted(n)
    }

    /// Adding local bounds twice is adding local bounds.
    pub proof fn lemma_bounded_trans(&self, middle: &Self, before: &Self)
        requires
            self.is_bounded_from(middle),
            middle.is_bounded_from(before),
        ensures
            self.is_bounded_from(before),
    {
        assert forall|n: int| 0 <= n < self.nodes@.len() implies same_but_below(
            #[trigger] self.nodes@[n],
            before.nodes@[n],
        ) by {
            assert(same_but_below(self.nodes@[n], middle.nodes@[n]));
            assert(same_but_below(middle.nodes@[n], before.nodes@[n]));
        }
    }

    /// What held of the marks before local bounds were added holds after.
    pub proof fn lemma_bounded_keeps(&self, before: &Self)
        requires
            self.is_bounded_from(before),
        ensures
            forall|v: int| #[trigger] self.in_last_layer(v) == before.in_last_layer(v),
            forall|v: int| #[trigger] self.walks_on(v) == before.walks_on(v),
            forall|v: int|
                0 <= v < self.nodes@.len() ==> #[trigger] self.inbound_edges(v)
                    == before.inbound_edges(v),
            forall|v: int, count: int|
                0 <= v < self.nodes@.len() && before.wf() && before.expanded_upto(v, count)
                    ==> #[trigger] self.expanded_upto(v, count),
    {
        assert forall|v: int| #[trigger] self.in_last_layer(v) == before.in_last_layer(v) by {
            if 0 <= v < self.nodes@.len() {
                assert(same_but_below(self.nodes@[v], before.nodes@[v]));
            }
        }
        assert forall|v: int| #[trigger] self.walks_on(v) == before.walks_on(v) by {
            if 0 <= v < self.nodes@.len() {
                assert(same_but_below(self.nodes@[v], before.nodes@[v]));
            }
        }
        assert forall|v: int| 0 <= v < self.nodes@.len() implies #[trigger] self.inbound_edges(v)
            == before.inbound_edges(v) by {
            assert(same_but_below(self.nodes@[v], before.nodes@[v]));
        }
        assert forall|v: int, count: int|
            0 <= v < self.nodes@.len() && before.wf() && before.expanded_upto(
                v,
                count,
            ) implies #[trigger] self.expanded_upto(v, count) by {
            assert forall|k: int| 0 <= k < count && k < self.inbound_edges(v).len() implies {
                let e = self.edges@[#[trigger] self.inbound_edges(v)[k] as int];
                &&& self.nodes@[e.from as int].flags.marked()
                &&& self.in_last_layer(v) ==> self.nodes@[e.from as int].value_bot >= e.cost
            } by {
                let id = before.inbound_edges(v)[k];
                lemma_chain_ids(before.edges@, before.nodes@[v].inbound, k);
                assert(before.edge_wf(id as int));
                let from = before.edges@[id as int].from as int;
                assert(same_but_below(self.nodes@[from], before.nodes@[from]));
            }
        }
    }

    /// Marks every node of the last layer, with a path of length zero below
    /// it, and hands back their ids in the order of the index.
    fn seed_last_layer(&mut self) -> (queue: Vec<usize>)
        requires
            obeys_key_model::<T>(),
            old(self).wf(),
            old(self).unbounded(),
        ensures
            final(self).wf(),
            final(self).is_bounded_from(old(self)),
            forall|q: int|
                0 <= q < queue@.len() ==> final(self).in_last_layer(#[trigger] queue@[q] as int),
            forall|v: int|
                #![trigger final(self).nodes@[v]]
                final(self).in_last_layer(v) ==> final(self).nodes@[v].flags.marked()
                    && final(self).nodes@[v].value_bot >= 0 && exists|q: int|
                    0 <= q < queue@.len() && #[trigger] queue@[q] == v,
            forall|n: int|
                #![trigger final(self).nodes@[n]]
                0 <= n < final(self).nodes@.len() && final(self).nodes@[n].flags.marked()
                    ==> final(self).in_last_layer(n) && final(self).nodes@[n].value_bot == 0,
            forall|n: int|
                #![trigger final(self).nodes@[n]]
                0 <= n < final(self).nodes@.len() && !final(self).nodes@[n].flags.marked()
                    ==> final(self).nodes@[n].value_bot == isize::MIN,
            final(self).is_seeded_from(old(self), queue@),
    {
        let ghost before = *self;
        let entries = index_entries(&self.next_l);
        let mut queue: Vec<usize> = Vec::new();
        let mut i: usize = 0;
        while i < entries.len()
            invariant
                i <= entries@.len(),
                before.wf(),
                before.unbounded(),
                crate::index::lists_index(entries@, before.next_l@),
                self.is_bounded_from(&before),
                queue@.len() == i,
                forall|j: int| 0 <= j < i ==> #[trigger] queue@[j] == entries@[j].1,
                forall|n: int|
                    #![trigger self.nodes@[n]]
                    0 <= n < self.nodes@.len() && !self.nodes@[n].flags.marked() ==> self.nodes@[n]
                        == before.nodes@[n],
                forall|j: int|
                    0 <= j < i ==> self.nodes@[(#[trigger] entries@[j]).1 as int].flags.marked()
                        && self.nodes@[entries@[j].1 as int].value_bot == 0,
                forall|n: int|
                    #![trigger self.nodes@[n]]
                    0 <= n < self.nodes@.len() && self.nodes@[n].flags.marked() ==> exists|j: int|
                        0 <= j < i && (#[trigger] entries@[j]).1 == n,
            decreases entries@.len() - i,
        {
            let ghost during = *self;
            let id = entries[i].1;
            proof {
                assert(before.next_l@.contains_pair(entries@[i as int].0, entries@[i as int].1));
                assert(before.next_l@.contains_key(entries@[i as int].0));
            }
            let mut flags = self.nodes[id].flags;
            flags.set_marked(true);
            self.nodes[id].flags = flags;
            self.nodes[id].value_bot = 0;
            queue.push(id);
            i += 1;
            proof {
                assert forall|n: int| 0 <= n < self.nodes@.len() implies same_but_below(
                    #[trigger] self.nodes@[n],
                    before.nodes@[n],
                ) by {
                    assert(same_but_below(during.nodes@[n], before.nodes@[n]));
                }
                assert forall|j: int| 0 <= j < i implies self.nodes@[(#[trigger] entries@[j]).1 as int].flags.marked()
                    && self.nodes@[entries@[j].1 as int].value_bot == 0 by {
                    assert(before.next_l@.contains_pair(entries@[j].0, entries@[j].1));
                    assert(before.next_l@.contains_key(entries@[j].0));
                    if j < i - 1 {
                        assert(during.nodes@[entries@[j].1 as int].flags.marked());
                        assert(during.nodes@[entries@[j].1 as int].value_bot == 0);
                    }
                }
                assert forall|n: int|
                    #![trigger self.nodes@[n]]
                    0 <= n < self.nodes@.len() && self.nodes@[n].flags.marked() implies exists|
                    j: int,
                |
                    0 <= j < i && (#[trigger] entries@[j]).1 == n by {
                    if n == id {
                        assert(entries@[i - 1].1 == n);
                    } else {
                        assert(during.nodes@[n].flags.marked());
                        let j = choose|j: int| 0 <= j < i - 1 && (#[trigger] entries@[j]).1 == n;
                        assert(entries@[j].1 == n);
                    }
                }
            }
        }
        proof {
            self.lemma_bounded_wf(&before);
            self.lemma_bounded_keeps(&before);
            assert forall|q: int| 0 <= q < queue@.len() implies self.in_last_layer(
                #[trigger] queue@[q] as int,
            ) by {
                assert(before.next_l@.contains_pair(entries@[q].0, entries@[q].1));
                assert(before.next_l@.contains_key(entries@[q].0));
                assert(before.in_last_layer(queue@[q] as int));
            }
            assert forall|v: int|
                #![trigger self.nodes@[v]]
                self.in_last_layer(v) implies self.nodes@[v].flags.marked()
                && self.nodes@[v].value_bot >= 0 && exists|q: int|
                0 <= q < queue@.len() && #[trigger] queue@[q] == v by {
                let state = self.nodes@[v].state;
                assert(before.next_l@.contains_key(state));
                let j = choose|j: int| 0 <= j < entries@.len() && (#[trigger] entries@[j]).0 == state;
                assert(before.next_l@.contains_pair(entries@[j].0, entries@[j].1));
                assert(entries@[j].1 == v);
                assert(queue@[j] == v);
            }
            assert forall|n: int|
                #![trigger self.nodes@[n]]
                0 <= n < self.nodes@.len() && self.nodes@[n].flags.marked() implies self.in_last_layer(
                n,
            ) && self.nodes@[n].value_bot == 0 by {
                let j = choose|j: int| 0 <= j < entries@.len() && (#[trigger] entries@[j]).1 == n;
                assert(before.next_l@.contains_pair(entries@[j].0, entries@[j].1));
                assert(before.next_l@.contains_key(entries@[j].0));
                assert(before.in_last_layer(n));
            }
            assert forall|n: int|
                #![trigger self.nodes@[n]]
                0 <= n < self.nodes@.len() && !self.nodes@[n].flags.marked() implies self.nodes@[n].value_bot
                == isize::MIN by {
                assert(same_but_below(self.nodes@[n], before.nodes@[n]));
            }
            assert forall|a: int, b: int|
                0 <= a < queue@.len() && 0 <= b < queue@.len() && a != b implies queue@[a]
                != queue@[b] by {
                before.lemma_entry_in_layer(entries@, a);
                before.lemma_entry_in_layer(entries@, b);
                if a < b {
                    assert(entries@[a].0 != entries@[b].0);
                } else {
                    assert(entries@[b].0 != entries@[a].0);
                }
            }
            assert forall|v: int|
                #![trigger self.nodes@[v]]
                before.in_last_layer(v) implies crate::mdd::layer::holds(queue@, v as usize)
                && self.nodes@[v].flags.marked() && self.nodes@[v].value_bot == 0 by {
                assert(self.in_last_layer(v));
                let q = choose|q: int| 0 <= q < queue@.len() && #[trigger] queue@[q] == v;
                assert(queue@[q] == v as usize);
            }
            assert forall|n: int|
                #![trigger self.nodes@[n]]
                0 <= n < self.nodes@.len() && !before.in_last_layer(n) implies self.nodes@[n]
                == before.nodes@[n] by {
                if self.nodes@[n].flags.marked() {
                    assert(self.in_last_layer(n));
                }
            }
            assert forall|q: int| 0 <= q < queue@.len() implies before.in_last_layer(
                #[trigger] queue@[q] as int,
            ) by {
                assert(self.in_last_layer(queue@[q] as int));
            }
        }
        queue
    }

    /// Says that `self` is `before` with the walk up from the last layer
    /// prepared: `seeds` lists the nodes of the last layer, each once; each
    /// of them is marked and has a path of length zero below it; and no
    /// other node differs.
    pub open spec fn is_seeded_from(&self, before: &Self, seeds: Seq<usize>) -> bool {
        &&& self.is_bounded_from(before)
        &&& seeds.no_duplicates()
        &&& forall|q: int| 0 <= q < seeds.len() ==> before.in_last_layer(#[trigger] seeds[q] as int)
        &&& forall|v: int|
            #![trigger self.nodes@[v]]
            before.in_last_layer(v) ==> crate::mdd::layer::holds(seeds, v as usize)
                && self.nodes@[v].flags.marked() && self.nodes@[v].value_bot == 0
        &&& forall|n: int|
            #![trigger self.nodes@[n]]
            0 <= n < self.nodes@.len() && !before.in_last_layer(n) ==> self.nodes@[n]
                == before.nodes@[n]
    }

    /// Says that each of `steps` but the first is the one before it after
    /// the offer of `offers` at the same place: an offer names the node that
    /// makes it and the edge along which it goes.
    pub open spec fn is_run_of_offers(steps: Seq<Self>, offers: Seq<(usize, usize)>) -> bool {
        &&& steps.len() == offers.len() + 1
        &&& forall|t: int|
            0 <= t < offers.len() ==> steps[t + 1].is_after_offer(
                &steps[t],
                (#[trigger] offers[t]).0 as int,
                offers[t].1 as int,
            )
    }

    /// The sources that the walk goes on from because of one of the first
    /// `upto` offers, in the order of the offers: the source of the edge of
    /// an offer, if it was not marked before the offer and is not in the
    /// cutset.
    pub open spec fn fresh_sources(
        steps: Seq<Self>,
        offers: Seq<(usize, usize)>,
        upto: int,
    ) -> Seq<usize>
        decreases upto,
    {
        if upto <= 0 {
            Seq::empty()
        } else {
            let earlier = Self::fresh_sources(steps, offers, upto - 1);
            let at = steps[upto - 1];
            let source = at.edges@[offers[upto - 1].1 as int].from;
            if !at.nodes@[source as int].flags.marked() && !at.nodes@[source as int].flags.cutset() {
                earlier.push(source)
            } else {
                earlier
            }
        }
    }

    /// Says that `self` is the diagram `before` after the walk up from the
    /// last layer, that `queue` holds the nodes that the walk went on from,
    /// in their order, the first `seeds` of them being the nodes of the last
    /// layer, and that `steps` are the diagrams after each offer: every node
    /// of `queue` in turn offered along each of its inbound edges, from the
    /// latest on, and the sources that the walk newly reached outside the
    /// cutset joined `queue` in the order in which they were reached.
    pub open spec fn is_walk_of(
        &self,
        before: &Self,
        queue: Seq<usize>,
        seeds: int,
        steps: Seq<Self>,
    ) -> bool {
        let offers = before.edges_into(queue, queue.len() as int);
        &&& 0 <= seeds <= queue.len()
        &&& steps.len() > 0
        &&& steps[0].is_seeded_from(before, queue.take(seeds))
        &&& Self::is_run_of_offers(steps, offers)
        &&& queue.skip(seeds) == Self::fresh_sources(steps, offers, offers.len() as int)
        &&& steps.last() == *self
    }

    /// The sources that the walk goes on from because of its first offers
    /// are the same whatever offers follow.
    pub proof fn lemma_fresh_sources_prefix(
        steps: Seq<Self>,
        offers: Seq<(usize, usize)>,
        longer_steps: Seq<Self>,
        longer_offers: Seq<(usize, usize)>,
        upto: int,
    )
        requires
            0 <= upto <= offers.len(),
            upto <= steps.len(),
            offers.len() <= longer_offers.len(),
            steps.len() <= longer_steps.len(),
            forall|t: int| 0 <= t < upto ==> #[trigger] longer_offers[t] == offers[t],
            forall|t: int| 0 <= t < upto ==> #[trigger] longer_steps[t] == steps[t],
        ensures
            Self::fresh_sources(longer_steps, longer_offers, upto) == Self::fresh_sources(
                steps,
                offers,
                upto,
            ),
        decreases upto,
    {
        if upto > 0 {
            Self::lemma_fresh_sources_prefix(steps, offers, longer_steps, longer_offers, upto - 1);
            assert(longer_offers[upto - 1] == offers[upto - 1]);
            assert(longer_steps[upto - 1] == steps[upto - 1]);
        }
    }

    /// One more offer extends the run of offers, and the source of its edge
    /// joins the sources that the walk goes on from if it was not marked and
    /// is not in the cutset.
    pub proof fn lemma_offer_extends_run(
        &self,
        steps: Seq<Self>,
        offers: Seq<(usize, usize)>,
        node: usize,
        edge_id: usize,
    )
        requires
            Self::is_run_of_offers(steps, offers),
            self.is_after_offer(&steps.last(), node as int, edge_id as int),
        ensures
            Self::is_run_of_offers(steps.push(*self), offers.push((node, edge_id))),
            Self::fresh_sources(
                steps.push(*self),
                offers.push((node, edge_id)),
                (offers.len() + 1) as int,
            ) == ({
                let earlier = Self::fresh_sources(steps, offers, offers.len() as int);
                let source = steps.last().edges@[edge_id as int].from;
                if !steps.last().nodes@[source as int].flags.marked() && !steps.last().nodes@[source as int].flags.cutset() {
                    earlier.push(source)
                } else {
                    earlier
                }
            }),
    {
        let longer_steps = steps.push(*self);
        let longer_offers = offers.push((node, edge_id));
        assert forall|t: int| 0 <= t < longer_offers.len() implies longer_steps[t + 1].is_after_offer(
            &longer_steps[t],
            (#[trigger] longer_offers[t]).0 as int,
            longer_offers[t].1 as int,
        ) by {
            if t < offers.len() {
                assert(longer_offers[t] == offers[t]);
                assert(longer_steps[t] == steps[t] && longer_steps[t + 1] == steps[t + 1]);
            } else {
                assert(longer_steps[t] == steps.last() && longer_steps[t + 1] == *self);
            }
        }
        Self::lemma_fresh_sources_prefix(
            steps,
            offers,
            longer_steps,
            longer_offers,
            offers.len() as int,
        );
        assert(longer_steps[offers.len() as int] == steps.last());
    }

    /// Says of the walk, of which `queue` holds the nodes it goes on from
    /// and the first `done` of them are dealt with, what holds between two
    /// of its steps.
    #[verifier::opaque]
    pub open spec fn walk_inv(&self, queue: Seq<usize>, done: int) -> bool {
        &&& 0 <= done <= queue.len()
        &&& forall|q: int|
            0 <= q < queue.len() ==> self.walks_on(#[trigger] queue[q] as int)
                && self.nodes@[queue[q] as int].flags.marked()
        &&& forall|v: int|
            #![trigger self.nodes@[v]]
            self.in_last_layer(v) ==> self.nodes@[v].flags.marked() && self.nodes@[v].value_bot
                >= 0
        &&& forall|v: int|
            #![trigger self.nodes@[v]]
            self.walks_on(v) && self.nodes@[v].flags.marked() ==> exists|q: int|
                0 <= q < queue.len() && #[trigger] queue[q] == v
        &&& forall|q: int| 0 <= q < done ==> self.expanded(#[trigger] queue[q] as int)
        &&& forall|n: int|
            #![trigger self.nodes@[n]]
            0 <= n < self.nodes@.len() && self.nodes@[n].flags.marked() ==> self.accounted(n)
        &&& forall|n: int|
            #![trigger self.nodes@[n]]
            0 <= n < self.nodes@.len() && !self.nodes@[n].flags.marked() ==> self.nodes@[n].value_bot
                == isize::MIN
    }

    /// The diagram after node `node` offered the source of edge `edge_id`
    /// the length of its own longest path below plus the cost of that edge,
    /// when `before` is the diagram before it: the source keeps the greater
    /// of the offer and what it had and is marked, and nothing else differs.
    pub open spec fn is_after_offer(&self, before: &Self, node: int, edge_id: int) -> bool {
        let edge = before.edges@[edge_id];
        let was = before.nodes@[edge.from as int];
        let now = self.nodes@[edge.from as int];
        &&& self.root_pa@ == before.root_pa@
        &&& self.edges@ == before.edges@
        &&& self.next_l@ == before.next_l@
        &&& self.prev_l@ == before.prev_l@
        &&& self.lel == before.lel
        &&& self.best_n == before.best_n
        &&& self.exact == before.exact
        &&& self.settled@ == before.settled@
        &&& self.nodes@ == before.nodes@.update(edge.from as int, now)
        &&& now.state == was.state
        &&& now.value == was.value
        &&& now.best == was.best
        &&& now.inbound == was.inbound
        &&& now.rub == was.rub
        &&& now.flags.exact() == was.flags.exact()
        &&& now.flags.relaxed() == was.flags.relaxed()
        &&& now.flags.cutset() == was.flags.cutset()
        &&& now.flags.marked()
        &&& now.value_bot == max_spec(
            was.value_bot,
            sat_add_spec(before.nodes@[node].value_bot, edge.cost),
        )
    }

    /// Lets node `node` offer the source of its inbound edge `edge_id` the
    /// length of its longest path below plus the cost of the edge, marks
    /// the source, and tells whether the walk goes on from it: it does from
    /// a source that was not marked and is not in the cutset.
    pub fn offer_below(&mut self, node: usize, edge_id: usize) -> (goes_on: bool)
        requires
            old(self).wf(),
            node < old(self).nodes@.len(),
            edge_id < old(self).edges@.len(),
        ensures
            final(self).wf(),
            final(self).is_after_offer(old(self), node as int, edge_id as int),
            goes_on == (!old(self).nodes@[old(self).edges@[edge_id as int].from as int].flags.marked()
                && !old(self).nodes@[old(self).edges@[edge_id as int].from as int].flags.cutset()),
    {
        let ghost before = *self;
        let edge = self.edges[edge_id];
        assert(self.edge_wf(edge_id as int));
        let source = edge.from;
        let below = sat_add(self.nodes[node].value_bot, edge.cost);
        if below > self.nodes[source].value_bot {
            self.nodes[source].value_bot = below;
        }
        let was_marked = self.nodes[source].flags.is_marked();
        let goes_on = !was_marked && !self.nodes[source].flags.is_cutset();
        if !was_marked {
            let mut flags = self.nodes[source].flags;
            flags.set_marked(true);
            self.nodes[source].flags = flags;
        }
        proof {
            assert(self.nodes@ =~= before.nodes@.update(source as int, self.nodes@[source as int]));
            assert(self.same_shape(&before));
            self.lemma_same_shape_wf(&before);
        }
        goes_on
    }

    /// One offer keeps what holds of the walk between two of its steps.
    pub proof fn lemma_offer_keeps_walk(
        &self,
        prev: &Self,
        queue: Seq<usize>,
        now_queue: Seq<usize>,
        done: int,
        k: int,
    )
        requires
            prev.wf(),
            prev.walk_inv(queue, done),
            done < queue.len(),
            0 <= k < prev.inbound_edges(queue[done] as int).len(),
            prev.expanded_upto(queue[done] as int, k),
            self.is_after_offer(
                prev,
                queue[done] as int,
                prev.inbound_edges(queue[done] as int)[k] as int,
            ),
            now_queue == ({
                let source = prev.edges@[prev.inbound_edges(queue[done] as int)[k] as int].from;
                if !prev.nodes@[source as int].flags.marked() && !prev.nodes@[source as int].flags.cutset() {
                    queue.push(source)
                } else {
                    queue
                }
            }),
        ensures
            self.is_bounded_from(prev),
            self.walk_inv(now_queue, done),
            self.expanded_upto(queue[done] as int, k + 1),
            unmarked_count(self.nodes@, self.nodes@.len() as int) + now_queue.len()
                <= unmarked_count(prev.nodes@, prev.nodes@.len() as int) + queue.len(),
    {
        reveal(WithLongArcs::walk_inv);
        let id = queue[done] as int;
        let edge_id = prev.inbound_edges(id)[k] as int;
        lemma_chain_ids(prev.edges@, prev.nodes@[id].inbound, k);
        assert(prev.edge_wf(edge_id));
        let edge = prev.edges@[edge_id];
        let source = edge.from as int;
        assert(prev.walks_on(id));
        assert forall|n: int| 0 <= n < self.nodes@.len() implies same_but_below(
            #[trigger] self.nodes@[n],
            prev.nodes@[n],
        ) by {}
        assert(self.is_bounded_from(prev));
        self.lemma_bounded_keeps(prev);
        lemma_marking_counts(prev.nodes@, self.nodes@, self.nodes@.len() as int);
        assert(same_but_below(self.nodes@[id], prev.nodes@[id]));
        assert(self.nodes@[source].value_bot != prev.nodes@[source].value_bot
            || !prev.nodes@[source].flags.marked() ==> self.reached_from(source, id, k));
        assert forall|q: int| 0 <= q < now_queue.len() implies self.walks_on(
            #[trigger] now_queue[q] as int,
        ) && self.nodes@[now_queue[q] as int].flags.marked() by {
            if q < queue.len() {
                assert(prev.walks_on(queue[q] as int));
                assert(same_but_below(
                    self.nodes@[now_queue[q] as int],
                    prev.nodes@[now_queue[q] as int],
                ));
            }
        }
        assert forall|v: int|
            #![trigger self.nodes@[v]]
            self.in_last_layer(v) implies self.nodes@[v].flags.marked() && self.nodes@[v].value_bot
            >= 0 by {
            assert(prev.in_last_layer(v));
            assert(same_but_below(self.nodes@[v], prev.nodes@[v]));
        }
        assert forall|v: int|
            #![trigger self.nodes@[v]]
            self.walks_on(v) && self.nodes@[v].flags.marked() implies exists|q: int|
            0 <= q < now_queue.len() && #[trigger] now_queue[q] == v by {
            assert(prev.walks_on(v));
            if prev.nodes@[v].flags.marked() {
                let q = choose|q: int| 0 <= q < queue.len() && #[trigger] queue[q] == v;
                assert(now_queue[q] == v);
            } else {
                assert(v == source);
                assert(!prev.in_last_layer(v));
                assert(now_queue[now_queue.len() - 1] == v);
            }
        }
        assert forall|q: int| 0 <= q < done implies self.expanded(#[trigger] now_queue[q] as int) by {
            assert(prev.expanded(queue[q] as int));
            assert(prev.walks_on(queue[q] as int));
        }
        assert forall|n: int|
            #![trigger self.nodes@[n]]
            0 <= n < self.nodes@.len() && self.nodes@[n].flags.marked() implies self.accounted(n) by {
            if n == source && self.nodes@[n].value_bot != prev.nodes@[n].value_bot {
                assert(self.reached_from(n, id, k));
            } else if prev.nodes@[n].flags.marked() {
                assert(prev.accounted(n));
                if prev.in_last_layer(n) && prev.nodes@[n].value_bot == 0 {
                } else {
                    let (v, w) = choose|v: int, w: int| #[trigger] prev.reached_from(n, v, w);
                    assert(same_but_below(self.nodes@[v], prev.nodes@[v]));
                    assert(self.reached_from(n, v, w));
                }
            } else {
                assert(n == source);
                assert(self.reached_from(n, id, k));
            }
        }
        assert forall|n: int|
            #![trigger self.nodes@[n]]
            0 <= n < self.nodes@.len() && !self.nodes@[n].flags.marked() implies self.nodes@[n].value_bot
            == isize::MIN by {
            assert(!prev.nodes@[n].flags.marked());
        }
        assert(self.expanded_upto(id, k));
        assert forall|j: int| 0 <= j < k + 1 && j < self.inbound_edges(id).len() implies {
            let e = self.edges@[#[trigger] self.inbound_edges(id)[j] as int];
            &&& self.nodes@[e.from as int].flags.marked()
            &&& self.in_last_layer(id) ==> self.nodes@[e.from as int].value_bot >= e.cost
        } by {
            if j == k {
                if self.in_last_layer(id) {
                    assert(prev.in_last_layer(id));
                    assert(prev.nodes@[id].value_bot >= 0);
                }
            }
        }
        if !prev.nodes@[source].flags.marked() {
            assert(!prev.nodes@[source].flags.marked() && self.nodes@[source].flags.marked());
        }
    }

    /// The walk starts with the nodes of the last layer, none of them dealt
    /// with.
    pub proof fn lemma_walk_starts(&self, before: &Self, queue: Seq<usize>)
        requires
            before.wf(),
            before.unbounded(),
            self.is_seeded_from(before, queue),
        ensures
            self.walk_inv(queue, 0),
    {
        reveal(WithLongArcs::walk_inv);
        self.lemma_bounded_keeps(before);
        assert forall|q: int| 0 <= q < queue.len() implies self.walks_on(#[trigger] queue[q] as int)
            && self.nodes@[queue[q] as int].flags.marked() by {
            assert(before.in_last_layer(queue[q] as int));
        }
        assert forall|v: int|
            #![trigger self.nodes@[v]]
            self.walks_on(v) && self.nodes@[v].flags.marked() implies exists|q: int|
            0 <= q < queue.len() && #[trigger] queue[q] == v by {
            if !before.in_last_layer(v) {
                assert(self.nodes@[v] == before.nodes@[v]);
            }
            assert(crate::mdd::layer::holds(queue, v as usize));
            let q = choose|q: int| 0 <= q < queue.len() && #[trigger] queue[q] == v as usize;
            assert(queue[q] == v);
        }
        assert forall|n: int|
            #![trigger self.nodes@[n]]
            0 <= n < self.nodes@.len() && self.nodes@[n].flags.marked() implies self.accounted(n) by {
            if !before.in_last_layer(n) {
                assert(self.nodes@[n] == before.nodes@[n]);
            }
        }
        assert forall|n: int|
            #![trigger self.nodes@[n]]
            0 <= n < self.nodes@.len() && !self.nodes@[n].flags.marked() implies self.nodes@[n].value_bot
            == isize::MIN by {
            assert(same_but_below(self.nodes@[n], before.nodes@[n]));
        }
    }

    /// The node that the walk deals with next is a marked node from which
    /// the walk goes on, with the inbound list that it had before the walk.
    pub proof fn lemma_walk_next(&self, before: &Self, queue: Seq<usize>, done: int)
        requires
            self.is_bounded_from(before),
            self.walk_inv(queue, done),
            done < queue.len(),
        ensures
            self.walks_on(queue[done] as int),
            queue[done] < self.nodes@.len(),
            self.inbound_edges(queue[done] as int) == before.inbound_edges(queue[done] as int),
            self.expanded_upto(queue[done] as int, 0),
    {
        reveal(WithLongArcs::walk_inv);
        assert(self.walks_on(queue[done] as int));
        assert(same_but_below(
            self.nodes@[queue[done] as int],
            before.nodes@[queue[done] as int],
        ));
    }

    /// Once the walk went on from the node it was dealing with, one more
    /// node is dealt with.
    pub proof fn lemma_walk_advances(&self, queue: Seq<usize>, done: int)
        requires
            self.walk_inv(queue, done),
            done < queue.len(),
            self.expanded(queue[done] as int),
        ensures
            self.walk_inv(queue, done + 1),
    {
        reveal(WithLongArcs::walk_inv);
        assert forall|q: int| 0 <= q < done + 1 implies self.expanded(#[trigger] queue[q] as int) by {}
    }

    /// When the walk has dealt with every node it goes on from, the marks
    /// are those that the walk up from the last layer reaches.
    pub proof fn lemma_walk_ends(&self, queue: Seq<usize>)
        requires
            self.walk_inv(queue, queue.len() as int),
        ensures
            self.marks_closed(),
    {
        reveal(WithLongArcs::walk_inv);
        assert forall|v: int|
            #![trigger self.nodes@[v]]
            self.walks_on(v) && self.nodes@[v].flags.marked() implies self.expanded(v) by {
            let q = choose|q: int| 0 <= q < queue.len() && #[trigger] queue[q] == v;
            assert(self.expanded(queue[q] as int));
        }
    }

    /// Computes the local bounds of a diagram that is not exact. Walking up
    /// from the last layer, in the order in which the nodes are reached, each
    /// node offers the source of each of its inbound edges the length of
    /// its own longest path below plus the cost of the edge; the source keeps
    /// the greater of that and what it had, and is marked. The walk goes on
    /// from a source that was not marked before, unless it is in the cutset.
    pub fn compute_local_bounds(&mut self)
        requires
            obeys_key_model::<T>(),
            old(self).wf(),
            !old(self).exact ==> old(self).unbounded(),
        ensures
            final(self).wf(),
            final(self).is_bounded_from(old(self)),
            old(self).exact ==> final(self).nodes@ == old(self).nodes@,
            !old(self).exact ==> final(self).marks_closed(),
            !old(self).exact ==> exists|queue: Seq<usize>, seeds: int, steps: Seq<Self>| #[trigger]
                final(self).is_walk_of(old(self), queue, seeds, steps),
    {
        if !self.exact {
            let ghost before = *self;
            let mut queue = self.seed_last_layer();
            let ghost seeds = queue@;
            let ghost mut steps: Seq<Self> = seq![*self];
            let ghost mut offers: Seq<(usize, usize)> = Seq::empty();
            let mut done: usize = 0;
            proof {
                self.lemma_walk_starts(&before, queue@);
                assert(queue@.take(seeds.len() as int) =~= seeds);
                assert(queue@.skip(seeds.len() as int) =~= Seq::<usize>::empty());
                assert(before.edges_into(queue@, 0) =~= offers);
            }
            while done < queue.len()
                invariant
                    before.wf(),
                    self.wf(),
                    self.is_bounded_from(&before),
                    self.walk_inv(queue@, done as int),
                    done <= queue@.len(),
                    seeds.len() <= queue@.len(),
                    queue@.take(seeds.len() as int) == seeds,
                    steps.len() > 0,
                    steps[0].is_seeded_from(&before, seeds),
                    steps.last() == *self,
                    offers == before.edges_into(queue@, done as int),
                    Self::is_run_of_offers(steps, offers),
                    queue@.skip(seeds.len() as int) == Self::fresh_sources(
                        steps,
                        offers,
                        offers.len() as int,
                    ),
                decreases
                    unmarked_count(self.nodes@, self.nodes@.len() as int),
                    queue@.len() - done,
            {
                let ghost start = *self;
                let ghost start_queue = queue@;
                let id = queue[done];
                let ghost chain = self.inbound_edges(id as int);
                let ghost mut k: int = 0;
                proof {
                    self.lemma_walk_next(&before, queue@, done as int);
                    assert(self.node_wf(id as int));
                }
                let mut inbound: Option<usize> = self.nodes[id].inbound;
                let ghost first = offers;
                proof {
                    assert(chain.skip(0) =~= chain);
                    assert(chain.take(0).map_values(|e: usize| (id, e)) =~= Seq::<
                        (usize, usize),
                    >::empty());
                    assert(first + Seq::<(usize, usize)>::empty() =~= first);
                }
                while inbound.is_some()
                    invariant
                        before.wf(),
                        self.wf(),
                        self.is_bounded_from(&before),
                        seeds.len() <= queue@.len(),
                        queue@.take(seeds.len() as int) == seeds,
                        steps.len() > 0,
                        steps[0].is_seeded_from(&before, seeds),
                        steps.last() == *self,
                        first == before.edges_into(queue@, done as int),
                        chain == before.inbound_edges(id as int),
                        offers == first + chain.take(k).map_values(|e: usize| (id, e)),
                        Self::is_run_of_offers(steps, offers),
                        queue@.skip(seeds.len() as int) == Self::fresh_sources(
                            steps,
                            offers,
                            offers.len() as int,
                        ),
                        done < start_queue.len() <= queue@.len(),
                        id == queue@[done as int],
                        id < self.nodes@.len(),
                        self.walk_inv(queue@, done as int),
                        chain == self.inbound_edges(id as int),
                        0 <= k <= chain.len(),
                        edge_chain(self.edges@, inbound) == chain.skip(k),
                        inbound matches Some(e) ==> e < self.edges@.len(),
                        self.expanded_upto(id as int, k),
                        unmarked_count(self.nodes@, self.nodes@.len() as int) + queue@.len()
                            <= unmarked_count(start.nodes@, start.nodes@.len() as int)
                            + start_queue.len(),
                    decreases
                        (match inbound {
                            Some(e) => e + 1,
                            None => 0,
                        }),
                {
                    let ghost during = *self;
                    let ghost during_queue = queue@;
                    let edge_id = inbound.unwrap();
                    let edge = self.edges[edge_id];
                    proof {
                        assert(self.edge_wf(edge_id as int));
                        self.lemma_chain_step(edge_id);
                        assert(chain.skip(k)[0] == edge_id);
                        assert(chain.skip(k).skip(1) =~= chain.skip(k + 1));
                        assert((seq![edge_id] + edge_chain(self.edges@, edge.next)).skip(1)
                            =~= edge_chain(self.edges@, edge.next));
                    }
                    let goes_on = self.offer_below(id, edge_id);
                    if goes_on {
                        queue.push(edge.from);
                    }
                    inbound = edge.next;
                    proof {
                        self.lemma_offer_keeps_walk(&during, during_queue, queue@, done as int, k);
                        self.lemma_bounded_trans(&during, &before);
                        self.lemma_bounded_keeps(&during);
                        self.lemma_offer_extends_run(steps, offers, id, edge_id);
                        before.lemma_edges_into_stable(during_queue, queue@, done as int);
                        assert(chain.take(k + 1).map_values(|e: usize| (id, e)) =~= chain.take(
                            k,
                        ).map_values(|e: usize| (id, e)).push((id, edge_id)));
                        assert(offers.push((id, edge_id)) =~= first + chain.take(k + 1).map_values(
                            |e: usize| (id, e),
                        ));
                        assert(queue@.take(seeds.len() as int) =~= during_queue.take(
                            seeds.len() as int,
                        ));
                        if goes_on {
                            assert(queue@.skip(seeds.len() as int) =~= during_queue.skip(
                                seeds.len() as int,
                            ).push(edge.from));
                        }
                        steps = steps.push(*self);
                        offers = offers.push((id, edge_id));
                        k = k + 1;
                    }
                }
                proof {
                    assert(chain.skip(k).len() == 0);
                    self.lemma_walk_advances(queue@, done as int);
                    assert(chain.take(k) =~= chain);
                    assert(offers == before.edges_into(queue@, done + 1));
                }
                done += 1;
            }
            proof {
                self.lemma_walk_ends(queue@);
                assert(self.is_walk_of(&before, queue@, seeds.len() as int, steps));
            }
        }
    }
}

} // verus!
