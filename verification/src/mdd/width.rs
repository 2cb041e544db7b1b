//! Ordering a layer from the most to the least promising node, and cutting
//! it down to the maximum width (restriction).

use crate::abstraction::StateRanking;
use crate::mdd::arena::WithLongArcs;
use crate::ranking::Rank;
use std::hash::Hash;
use std::sync::Arc;
use vstd::prelude::*;

verus! {

impl<T: Eq + Hash> WithLongArcs<T> {
    /// Says that node `a` may stand before node `b` in a layer ordered from
    /// the most to the least promising: its value is greater, or the values
    /// are equal and a comparison of the two states by the ranking did not
    /// put `a` behind `b`.
    pub open spec fn in_order<K: StateRanking<State = T>>(
        &self,
        ranking: &K,
        a: int,
        b: int,
    ) -> bool {
        let na = self.nodes@[a];
        let nb = self.nodes@[b];
        ||| na.value > nb.value
        ||| na.value == nb.value && exists|rank: Rank| #[trigger]
            call_ensures(K::compare, (ranking, &*na.state, &*nb.state), rank) && rank != Rank::Less
        ||| na.value == nb.value && exists|rank: Rank| #[trigger]
            call_ensures(K::compare, (ranking, &*nb.state, &*na.state), rank) && rank == Rank::Less
    }

    /// Says that each node of `layer` may stand before the one that follows
    /// it.
    pub open spec fn ordered<K: StateRanking<State = T>>(
        &self,
        ranking: &K,
        layer: Seq<usize>,
    ) -> bool {
        forall|i: int|
            0 <= i < layer.len() - 1 ==> self.in_order(
                ranking,
                #[trigger] layer[i] as int,
                layer[i + 1] as int,
            )
    }

    /// Says that the arena of `self` differs from that of `before` at most
    /// in fields of its nodes that the invariant does not speak of.
    pub open spec fn same_arena(&self, before: &Self) -> bool {
        &&& self.edges@ == before.edges@
        &&& self.next_l@ == before.next_l@
        &&& self.settled@ == before.settled@
        &&& self.nodes@.len() == before.nodes@.len()
        &&& forall|n: int|
            0 <= n < self.nodes@.len() ==> {
                &&& (#[trigger] self.nodes@[n]).state == before.nodes@[n].state
                &&& self.nodes@[n].value == before.nodes@[n].value
                &&& self.nodes@[n].best == before.nodes@[n].best
                &&& self.nodes@[n].inbound == before.nodes@[n].inbound
                &&& self.nodes@[n].flags.exact() == before.nodes@[n].flags.exact()
                &&& self.nodes@[n].flags.relaxed() == before.nodes@[n].flags.relaxed()
            }
    }

    /// Says that `self` differs from `before` at most in fields of its nodes
    /// that the invariant does not speak of.
    pub open spec fn same_shape(&self, before: &Self) -> bool {
        &&& self.same_arena(before)
        &&& self.prev_l@ == before.prev_l@
        &&& self.lel == before.lel
        &&& self.best_n == before.best_n
    }

    /// A diagram with the arena of a well-formed one, up to fields that the
    /// invariant does not speak of, is well formed if its ids name nodes.
    pub proof fn lemma_same_arena_wf(&self, before: &Self)
        requires
            before.wf(),
            self.same_arena(before),
            self.ids_wf(),
        ensures
            self.wf(),
    {
        assert forall|state: Arc<T>| #[trigger] self.next_l@.contains_key(state) implies {
            &&& self.settled@ <= self.next_l@[state] < self.nodes@.len()
            &&& self.nodes@[self.next_l@[state] as int].state == state
        } by {
            assert(before.next_l@.contains_key(state));
        }
        self.lemma_extends_wf(before);
    }

    /// A diagram of the same shape as a well-formed one is well formed.
    pub proof fn lemma_same_shape_wf(&self, before: &Self)
        requires
            before.wf(),
            self.same_shape(before),
        ensures
            self.wf(),
    {
        self.lemma_same_arena_wf(before);
    }

    /// Tells whether node `a` is to stand before node `b`: its value is
    /// greater, or the values are equal and the ranking does not put its
    /// state behind that of `b`.
    pub fn goes_before<K: StateRanking<State = T>>(&self, ranking: &K, a: usize, b: usize) -> (before:
        bool)
        requires
            a < self.nodes@.len(),
            b < self.nodes@.len(),
        ensures
            before ==> self.in_order(ranking, a as int, b as int),
            !before ==> self.in_order(ranking, b as int, a as int),
            self.nodes@[a as int].value > self.nodes@[b as int].value ==> before,
            self.nodes@[a as int].value < self.nodes@[b as int].value ==> !before,
    {
        let va = self.nodes[a].value;
        let vb = self.nodes[b].value;
        if va > vb {
            true
        } else if va < vb {
            false
        } else {
            let rank = ranking.compare(&*self.nodes[a].state, &*self.nodes[b].state);
            match rank {
                Rank::Less => false,
                _ => true,
            }
        }
    }

    /// Merges two ordered layers into one ordered layer: each time, the
    /// first of the nodes that are left of the first layer comes next unless
    /// the first of those left of the second is to stand before it.
    pub fn merge_layers<K: StateRanking<State = T>>(
        &self,
        ranking: &K,
        first: &Vec<usize>,
        second: &Vec<usize>,
    ) -> (merged: Vec<usize>)
        requires
            forall|i: int| 0 <= i < first@.len() ==> #[trigger] first@[i] < self.nodes@.len(),
            forall|i: int| 0 <= i < second@.len() ==> #[trigger] second@[i] < self.nodes@.len(),
            self.ordered(ranking, first@),
            self.ordered(ranking, second@),
        ensures
            merged@.to_multiset() == first@.to_multiset().add(second@.to_multiset()),
            self.ordered(ranking, merged@),
            forall|i: int| 0 <= i < merged@.len() ==> #[trigger] merged@[i] < self.nodes@.len(),
    {
        let mut merged: Vec<usize> = Vec::new();
        let mut i: usize = 0;
        let mut j: usize = 0;
        proof {
            broadcast use vstd::multiset::group_multiset_axioms;

            assert forall|id: usize|
                merged@.to_multiset().count(id) == first@.take(0).to_multiset().add(
                    second@.take(0).to_multiset(),
                ).count(id) by {
                vstd::seq_lib::to_multiset_contains(merged@, id);
                vstd::seq_lib::to_multiset_contains(first@.take(0), id);
                vstd::seq_lib::to_multiset_contains(second@.take(0), id);
            }
            assert(merged@.to_multiset() =~= first@.take(0).to_multiset().add(
                second@.take(0).to_multiset(),
            ));
        }
        while i < first.len() || j < second.len()
            invariant
                i <= first@.len(),
                j <= second@.len(),
                forall|k: int| 0 <= k < first@.len() ==> #[trigger] first@[k] < self.nodes@.len(),
                forall|k: int| 0 <= k < second@.len() ==> #[trigger] second@[k] < self.nodes@.len(),
                forall|k: int| 0 <= k < merged@.len() ==> #[trigger] merged@[k] < self.nodes@.len(),
                self.ordered(ranking, first@),
                self.ordered(ranking, second@),
                self.ordered(ranking, merged@),
                merged@.len() == i + j,
                merged@.to_multiset() == first@.take(i as int).to_multiset().add(
                    second@.take(j as int).to_multiset(),
                ),
                merged@.len() > 0 && i < first@.len() ==> self.in_order(
                    ranking,
                    merged@.last() as int,
                    first@[i as int] as int,
                ),
                merged@.len() > 0 && j < second@.len() ==> self.in_order(
                    ranking,
                    merged@.last() as int,
                    second@[j as int] as int,
                ),
            decreases first@.len() - i + second@.len() - j,
        {
            let ghost was = merged@;
            let from_first = if i >= first.len() {
                false
            } else if j >= second.len() {
                true
            } else {
                self.goes_before(ranking, first[i], second[j])
            };
            if from_first {
                merged.push(first[i]);
                proof {
                    assert(first@.take(i + 1) =~= first@.take(i as int).push(first@[i as int]));
                    vstd::seq_lib::to_multiset_build(first@.take(i as int), first@[i as int]);
                    vstd::seq_lib::to_multiset_build(was, first@[i as int]);
                    broadcast use vstd::multiset::group_multiset_axioms;

                    assert(merged@.to_multiset() =~= first@.take(i + 1).to_multiset().add(
                        second@.take(j as int).to_multiset(),
                    ));
                    assert forall|k: int| 0 <= k < merged@.len() - 1 implies self.in_order(
                        ranking,
                        #[trigger] merged@[k] as int,
                        merged@[k + 1] as int,
                    ) by {
                        if k < was.len() - 1 {
                            assert(self.in_order(ranking, was[k] as int, was[k + 1] as int));
                        }
                    }
                    if i + 1 < first@.len() {
                        assert(self.in_order(
                            ranking,
                            first@[i as int] as int,
                            first@[i + 1] as int,
                        ));
                    }
                }
                i += 1;
            } else {
                merged.push(second[j]);
                proof {
                    assert(second@.take(j + 1) =~= second@.take(j as int).push(second@[j as int]));
                    vstd::seq_lib::to_multiset_build(second@.take(j as int), second@[j as int]);
                    vstd::seq_lib::to_multiset_build(was, second@[j as int]);
                    broadcast use vstd::multiset::group_multiset_axioms;

                    assert(merged@.to_multiset() =~= first@.take(i as int).to_multiset().add(
                        second@.take(j + 1).to_multiset(),
                    ));
                    assert forall|k: int| 0 <= k < merged@.len() - 1 implies self.in_order(
                        ranking,
                        #[trigger] merged@[k] as int,
                        merged@[k + 1] as int,
                    ) by {
                        if k < was.len() - 1 {
                            assert(self.in_order(ranking, was[k] as int, was[k + 1] as int));
                        }
                    }
                    if j + 1 < second@.len() {
                        assert(self.in_order(
                            ranking,
                            second@[j as int] as int,
                            second@[j + 1] as int,
                        ));
                    }
                }
                j += 1;
            }
        }
        proof {
            assert(first@.take(first@.len() as int) =~= first@);
            assert(second@.take(second@.len() as int) =~= second@);
        }
        merged
    }

    /// The nodes of `layer` from place `from` up to place `to`, ordered
    /// from the most to the least promising: the two halves are ordered and
    /// merged.
    pub fn sorted_range<K: StateRanking<State = T>>(
        &self,
        ranking: &K,
        layer: &Vec<usize>,
        from: usize,
        to: usize,
    ) -> (sorted: Vec<usize>)
        requires
            from <= to <= layer@.len(),
            forall|i: int| 0 <= i < layer@.len() ==> #[trigger] layer@[i] < self.nodes@.len(),
        ensures
            sorted@.to_multiset() == layer@.subrange(from as int, to as int).to_multiset(),
            self.ordered(ranking, sorted@),
            forall|i: int| 0 <= i < sorted@.len() ==> #[trigger] sorted@[i] < self.nodes@.len(),
        decreases to - from,
    {
        if to - from <= 1 {
            let mut sorted: Vec<usize> = Vec::new();
            if from < to {
                sorted.push(layer[from]);
            }
            proof {
                assert(sorted@ =~= layer@.subrange(from as int, to as int));
            }
            sorted
        } else {
            let middle = from + (to - from) / 2;
            let first = self.sorted_range(ranking, layer, from, middle);
            let second = self.sorted_range(ranking, layer, middle, to);
            proof {
                assert(layer@.subrange(from as int, to as int) =~= layer@.subrange(
                    from as int,
                    middle as int,
                ) + layer@.subrange(middle as int, to as int));
                vstd::seq_lib::lemma_multiset_commutative(
                    layer@.subrange(from as int, middle as int),
                    layer@.subrange(middle as int, to as int),
                );
            }
            self.merge_layers(ranking, &first, &second)
        }
    }

    /// Orders a layer from the most to the least promising node. Of two
    /// nodes that the values and the ranking do not tell apart, the one
    /// that came first stays first.
    pub fn sort_layer<K: StateRanking<State = T>>(&self, ranking: &K, layer: &mut Vec<usize>)
        requires
            forall|i: int| 0 <= i < old(layer)@.len() ==> #[trigger] old(layer)@[i] < self.nodes@.len(),
        ensures
            final(layer)@.to_multiset() == old(layer)@.to_multiset(),
            final(layer)@.len() == old(layer)@.len(),
            self.ordered(ranking, final(layer)@),
            forall|i: int|
                0 <= i < final(layer)@.len() ==> #[trigger] final(layer)@[i] < self.nodes@.len(),
    {
        let sorted = self.sorted_range(ranking, layer, 0, layer.len());
        proof {
            assert(layer@.subrange(0, layer@.len() as int) =~= layer@);
            vstd::seq_lib::to_multiset_len(sorted@);
            vstd::seq_lib::to_multiset_len(layer@);
        }
        *layer = sorted;
    }

    /// Says that `kept` is what restriction to `max_width` keeps of `layer`:
    /// the first `max_width` nodes of the layer once it is ordered from the
    /// most to the least promising node, or all of them if they are fewer.
    pub open spec fn is_restriction<K: StateRanking<State = T>>(
        &self,
        ranking: &K,
        max_width: usize,
        layer: Seq<usize>,
        kept: Seq<usize>,
    ) -> bool {
        exists|sorted: Seq<usize>|
            {
                &&& sorted.to_multiset() == layer.to_multiset()
                &&& #[trigger] self.ordered(ranking, sorted)
                &&& kept == if max_width < sorted.len() {
                    sorted.take(max_width as int)
                } else {
                    sorted
                }
            }
    }

    /// Cuts a layer down to its `max_width` most promising nodes.
    pub fn restrict<K: StateRanking<State = T>>(
        &self,
        ranking: &K,
        max_width: usize,
        curr_l: &mut Vec<usize>,
    )
        requires
            forall|i: int|
                0 <= i < old(curr_l)@.len() ==> #[trigger] old(curr_l)@[i] < self.nodes@.len(),
        ensures
            self.is_restriction(ranking, max_width, old(curr_l)@, final(curr_l)@),
            forall|i: int|
                0 <= i < final(curr_l)@.len() ==> old(curr_l)@.contains(#[trigger] final(curr_l)@[i]),
    {
        self.sort_layer(ranking, curr_l);
        let ghost sorted = curr_l@;
        curr_l.truncate(max_width);
        proof {
            assert(self.ordered(ranking, sorted));
            vstd::seq_lib::to_multiset_len(sorted);
            if max_width < sorted.len() {
                assert(curr_l@ =~= sorted.take(max_width as int));
            } else {
                assert(curr_l@ =~= sorted);
            }
            assert forall|i: int| 0 <= i < curr_l@.len() implies old(curr_l)@.contains(
                #[trigger] curr_l@[i],
            ) by {
                assert(sorted[i] == curr_l@[i]);
                assert(sorted.contains(sorted[i]));
                vstd::seq_lib::to_multiset_contains(sorted, sorted[i]);
                vstd::seq_lib::to_multiset_contains(old(curr_l)@, sorted[i]);
            }
        }
    }
}

} // verus!
