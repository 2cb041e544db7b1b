//! Width control: keeping a layer within the maximum width, by
//! restriction or by relaxation, and capturing the last exact layer the
//! first time a layer must shrink.

use crate::abstraction::{Problem, Relaxation, StateRanking};
use crate::common::CompilationType;
use crate::mdd::arena::WithLongArcs;
use std::hash::Hash;
use vstd::prelude::*;
use vstd::std_specs::hash::obeys_key_model;

verus! {

/// Whether a layer of `width` nodes at `depth` must shrink: never in an
/// exact compilation; when it is wider than `max_width` in a restricted one;
/// and in a relaxed one when it is wider than `max_width` and lies below the
/// first layer under the root.
pub open spec fn must_shrink(
    comp_type: CompilationType,
    max_width: usize,
    depth: usize,
    width: nat,
) -> bool {
    match comp_type {
        CompilationType::Exact => false,
        CompilationType::Restricted => width > max_width,
        CompilationType::Relaxed => width > max_width && depth > 1,
    }
}

impl<T: Eq + Hash> WithLongArcs<T> {
    /// Says that `self` came from `before` by width control: the arena did
    /// not shrink, a last exact layer that `before` had is kept as it was,
    /// and no node was marked or given a length below it if none was.
    pub open spec fn widened_from(&self, before: &Self) -> bool {
        &&& self.root_pa@ == before.root_pa@
        &&& self.prev_l@ == before.prev_l@
        &&& self.best_n == before.best_n
        &&& self.exact == before.exact
        &&& self.settled@ == before.settled@
        &&& self.next_l@ == before.next_l@
        &&& before.nodes@.len() <= self.nodes@.len()
        &&& before.lel is Some ==> self.lel == before.lel
        &&& before.lel is None ==> (self.lel matches Some(lel) ==> lel@ == before.prev_l@)
        &&& self.edges@.len() >= before.edges@.len()
        &&& self.keeps_settled(before)
        &&& before.unbounded() ==> self.unbounded()
    }

    /// Says that `self` is `before` but for the rough upper bounds of the
    /// nodes of `layer`, each of which has the bound that the relaxation
    /// gave for its state.
    pub open spec fn is_bounded_layer_from<R: Relaxation<State = T>>(
        &self,
        before: &Self,
        relaxation: &R,
        layer: Seq<usize>,
    ) -> bool {
        &&& self.only_bounds_differ(before)
        &&& forall|i: int|
            0 <= i < layer.len() ==> call_ensures(
                R::fast_upper_bound,
                (relaxation, &*before.nodes@[#[trigger] layer[i] as int].state),
                self.nodes@[layer[i] as int].rub,
            )
        &&& forall|n: int|
            0 <= n < self.nodes@.len() && !crate::mdd::layer::holds(layer, n as usize) ==> (
            #[trigger] self.nodes@[n]).rub == before.nodes@[n].rub
    }

    /// Gives every node of a layer the rough upper bound of its state.
    pub fn bound_layer<R: Relaxation<State = T>>(&mut self, relaxation: &R, layer: &Vec<usize>)
        requires
            old(self).wf(),
            forall|i: int| 0 <= i < layer@.len() ==> #[trigger] layer@[i] < old(self).nodes@.len(),
        ensures
            final(self).wf(),
            final(self).is_bounded_layer_from(old(self), relaxation, layer@),
    {
        let ghost before = *self;
        let mut i: usize = 0;
        while i < layer.len()
            invariant
                i <= layer@.len(),
                before.wf(),
                self.wf(),
                self.same_shape(&before),
                self.same_frame(&before),
                forall|k: int| 0 <= k < layer@.len() ==> #[trigger] layer@[k] < self.nodes@.len(),
                forall|n: int|
                    0 <= n < self.nodes@.len() ==> crate::mdd::branch::same_but_rub(
                        #[trigger] self.nodes@[n],
                        before.nodes@[n],
                    ),
                forall|k: int|
                    0 <= k < i ==> call_ensures(
                        R::fast_upper_bound,
                        (relaxation, &*before.nodes@[#[trigger] layer@[k] as int].state),
                        self.nodes@[layer@[k] as int].rub,
                    ),
                forall|n: int|
                    0 <= n < self.nodes@.len() && !crate::mdd::layer::holds(layer@, n as usize)
                        ==> (#[trigger] self.nodes@[n]).rub == before.nodes@[n].rub,
            decreases layer@.len() - i,
        {
            let ghost during = *self;
            let id = layer[i];
            let state = self.nodes[id].state.clone();
            let rub = relaxation.fast_upper_bound(&*state);
            self.set_rub(id, rub);
            proof {
                assert forall|k: int| 0 <= k < i + 1 implies call_ensures(
                    R::fast_upper_bound,
                    (relaxation, &*before.nodes@[#[trigger] layer@[k] as int].state),
                    self.nodes@[layer@[k] as int].rub,
                ) by {
                    assert(crate::mdd::branch::same_but_rub(
                        during.nodes@[layer@[k] as int],
                        before.nodes@[layer@[k] as int],
                    ));
                    if layer@[k] == id {
                    } else {
                        if k == i {
                        }
                    }
                }
            }
            i += 1;
        }
    }

    /// Says that `self` and `kept` are the diagram and the layer after width
    /// control of the layer `layer` of the diagram `before` at `depth`.
    /// Where the layer need not shrink, nothing differs. Else the last exact
    /// layer is captured unless it was before; a restricted compilation
    /// then restricts the layer; a relaxed one gives the nodes of the layer
    /// their rough upper bounds, if the last exact layer was captured just
    /// now, and relaxes the layer.
    pub open spec fn is_width_controlled<R: Relaxation<State = T>, K: StateRanking<State = T>>(
        &self,
        before: &Self,
        comp_type: CompilationType,
        relaxation: &R,
        ranking: &K,
        max_width: usize,
        depth: usize,
        layer: Seq<usize>,
        kept: Seq<usize>,
    ) -> bool {
        if !must_shrink(comp_type, max_width, depth, layer.len()) {
            *self == *before && kept == layer
        } else if comp_type is Restricted {
            self.is_captured_from(before) && self.is_restriction(ranking, max_width, layer, kept)
        } else {
            exists|captured: Self, prepared: Self|
                {
                    &&& #[trigger] captured.is_captured_from(before)
                    &&& if before.lel is None {
                        prepared.is_bounded_layer_from(&captured, relaxation, layer)
                    } else {
                        prepared == captured
                    }
                    &&& #[trigger] self.is_relaxation_of(
                        &prepared,
                        relaxation,
                        ranking,
                        max_width,
                        layer,
                        kept,
                    )
                }
        }
    }

    /// Keeps a layer within the maximum width, where the compilation limits
    /// the width and the layer exceeds it. The first time this happens the
    /// layer that was developed last becomes the last exact layer. A
    /// restricted compilation then keeps the `max_width` most promising
    /// nodes. A relaxed one, which never shrinks the first layer under the
    /// root, gives every node of the layer its rough upper bound if the
    /// last exact layer was captured just now, and merges the tail of the
    /// layer.
    pub fn control_width<R: Relaxation<State = T>, K: StateRanking<State = T>>(
        &mut self,
        comp_type: CompilationType,
        relaxation: &R,
        ranking: &K,
        max_width: usize,
        depth: usize,
        curr_l: &mut Vec<usize>,
    )
        requires
            obeys_key_model::<T>(),
            old(self).wf(),
            comp_type is Relaxed ==> max_width >= 1,
            old(curr_l)@.no_duplicates(),
            forall|i: int|
                0 <= i < old(curr_l)@.len() ==> old(self).settled@ <= #[trigger] old(curr_l)@[i]
                    < old(self).nodes@.len(),
        ensures
            final(self).wf(),
            final(curr_l)@.no_duplicates(),
            forall|i: int|
                0 <= i < final(curr_l)@.len() ==> final(self).settled@ <= #[trigger] final(curr_l)@[i]
                    < final(self).nodes@.len(),
            final(self).widened_from(old(self)),
            final(self).is_width_controlled(
                old(self),
                comp_type,
                relaxation,
                ranking,
                max_width,
                depth,
                old(curr_l)@,
                final(curr_l)@,
            ),
            must_shrink(comp_type, max_width, depth, old(curr_l)@.len()) ==> final(self).lel is Some
                && final(curr_l)@.len() <= max_width,
    {
        let ghost before = *self;
        match comp_type {
            CompilationType::Exact => {},
            CompilationType::Restricted => {
                if curr_l.len() > max_width {
                    self.maybe_save_lel();
                    proof {
                        self.lemma_capture_widens(&before);
                    }
                    self.restrict(ranking, max_width, curr_l);
                    proof {
                        let sorted = choose|sorted: Seq<usize>|
                            {
                                &&& sorted.to_multiset() == old(curr_l)@.to_multiset()
                                &&& #[trigger] self.ordered(ranking, sorted)
                                &&& curr_l@ == if max_width < sorted.len() {
                                    sorted.take(max_width as int)
                                } else {
                                    sorted
                                }
                            };
                        vstd::seq_lib::to_multiset_len(sorted);
                        vstd::seq_lib::to_multiset_len(old(curr_l)@);
                        old(curr_l)@.lemma_multiset_has_no_duplicates();
                        sorted.lemma_multiset_has_no_duplicates_conv();
                        assert forall|i: int| 0 <= i < curr_l@.len() implies self.settled@
                            <= #[trigger] curr_l@[i] < self.nodes@.len() by {
                            assert(old(curr_l)@.contains(curr_l@[i]));
                        }
                        assert forall|i: int, j: int|
                            0 <= i < curr_l@.len() && 0 <= j < curr_l@.len() && i != j implies curr_l@[i]
                            != curr_l@[j] by {
                            assert(curr_l@[i] == sorted[i] && curr_l@[j] == sorted[j]);
                        }
                    }
                }
            },
            CompilationType::Relaxed => {
                if curr_l.len() > max_width && depth > 1 {
                    let saved = self.maybe_save_lel();
                    let ghost captured = *self;
                    proof {
                        self.lemma_capture_widens(&before);
                    }
                    if saved {
                        self.bound_layer(relaxation, curr_l);
                        proof {
                            self.lemma_bounds_widen(&captured, &before);
                        }
                    }
                    let ghost prepared = *self;
                    self.relax(relaxation, ranking, max_width, curr_l);
                    proof {
                        self.lemma_relaxation_widens(
                            &prepared,
                            relaxation,
                            ranking,
                            max_width,
                            old(curr_l)@,
                            curr_l@,
                        );
                    }
                }
            },
        }
    }

    /// Capturing the last exact layer, or finding it captured, is a step of
    /// width control.
    pub proof fn lemma_capture_widens(&self, before: &Self)
        requires
            before.wf(),
            self.is_captured_from(before),
        ensures
            self.widened_from(before),
            self.lel is Some,
            self.nodes@.len() == before.nodes@.len(),
    {
        if before.lel is None {
            assert forall|n: int| 0 <= n < self.nodes@.len() implies {
                &&& (#[trigger] self.nodes@[n]).state == before.nodes@[n].state
                &&& self.nodes@[n].value == before.nodes@[n].value
                &&& self.nodes@[n].best == before.nodes@[n].best
                &&& self.nodes@[n].inbound == before.nodes@[n].inbound
                &&& self.nodes@[n].value_bot == before.nodes@[n].value_bot
                &&& self.nodes@[n].flags.marked() == before.nodes@[n].flags.marked()
            } by {
                assert(crate::mdd::cutset::same_but_cutset(self.nodes@[n], before.nodes@[n]));
            }
        }
    }

    /// Rough upper bounds given after the capture of the last exact layer
    /// are a step of width control.
    pub proof fn lemma_bounds_widen(&self, captured: &Self, before: &Self)
        requires
            captured.widened_from(before),
            captured.lel is Some,
            captured.nodes@.len() == before.nodes@.len(),
            self.only_bounds_differ(captured),
        ensures
            self.widened_from(before),
            self.lel is Some,
            self.nodes@.len() == before.nodes@.len(),
    {
        assert forall|n: int|
            0 <= n < before.settled@ && n < before.nodes@.len() && n < self.nodes@.len() implies {
            &&& (#[trigger] self.nodes@[n]).state == before.nodes@[n].state
            &&& self.nodes@[n].value == before.nodes@[n].value
            &&& self.nodes@[n].best == before.nodes@[n].best
            &&& self.nodes@[n].inbound == before.nodes@[n].inbound
        } by {
            assert(crate::mdd::branch::same_but_rub(self.nodes@[n], captured.nodes@[n]));
            assert(captured.nodes@[n].state == before.nodes@[n].state);
        }
        if before.unbounded() {
            assert forall|n: int| 0 <= n < self.nodes@.len() implies !(
            #[trigger] self.nodes@[n]).flags.marked() && self.nodes@[n].value_bot == isize::MIN by {
                assert(crate::mdd::branch::same_but_rub(self.nodes@[n], captured.nodes@[n]));
                assert(!captured.nodes@[n].flags.marked());
            }
        }
    }

    /// Relaxing a layer keeps what the compilation relies on: the arena
    /// does not shrink, the settled nodes stay as they were, the layer names
    /// no node twice and only nodes that are not settled, and no node is
    /// marked or given a length below it if none was.
    pub proof fn lemma_relaxation_widens<R: Relaxation<State = T>, K: StateRanking<State = T>>(
        &self,
        before: &Self,
        relaxation: &R,
        ranking: &K,
        max_width: usize,
        layer: Seq<usize>,
        kept: Seq<usize>,
    )
        requires
            1 <= max_width < layer.len(),
            layer.no_duplicates(),
            forall|i: int|
                0 <= i < layer.len() ==> before.settled@ <= #[trigger] layer[i] < before.nodes@.len(),
            self.is_relaxation_of(before, relaxation, ranking, max_width, layer, kept),
        ensures
            before.unbounded() ==> self.unbounded(),
            self.keeps_settled(before),
            before.edges@.len() <= self.edges@.len(),
            before.nodes@.len() <= self.nodes@.len(),
            self.same_frame(before),
            self.next_l@ == before.next_l@,
            kept.no_duplicates(),
            kept.len() <= max_width,
    {
        let (sorted, merged, cursor) = choose|
            sorted: Seq<usize>,
            merged: usize,
            cursor: &mut crate::abstraction::StateIter<'_, T>,
        |
            {
                &&& sorted.to_multiset() == layer.to_multiset()
                &&& before.ordered(ranking, sorted)
                &&& #[trigger] call_ensures(
                    R::merge,
                    (relaxation, cursor),
                    *self.nodes@[merged as int].state,
                )
                &&& cursor.position == 0
                &&& before.shows_states(cursor.states@, sorted.skip(max_width - 1))
                &&& #[trigger] self.is_after_merge(
                    before,
                    relaxation,
                    sorted.skip(max_width - 1),
                    merged,
                )
                &&& if merged < before.nodes@.len() {
                    &&& kept == sorted.take(max_width as int)
                    &&& exists|w: int|
                        {
                            &&& 0 <= w < max_width - 1
                            &&& #[trigger] sorted[w] == merged
                            &&& forall|k: int|
                                0 <= k < w ==> before.nodes@[#[trigger] sorted[k] as int].state
                                    != self.nodes@[merged as int].state
                        }
                } else {
                    &&& kept == sorted.take(max_width - 1).push(merged)
                    &&& forall|i: int|
                        0 <= i < max_width - 1 ==> before.nodes@[#[trigger] sorted[i] as int].state
                            != self.nodes@[merged as int].state
                }
            };
        vstd::seq_lib::to_multiset_len(sorted);
        vstd::seq_lib::to_multiset_len(layer);
        layer.lemma_multiset_has_no_duplicates();
        sorted.lemma_multiset_has_no_duplicates_conv();
        assert forall|i: int, j: int|
            0 <= i < kept.len() && 0 <= j < kept.len() && i != j implies kept[i] != kept[j] by {
            if merged < before.nodes@.len() {
                assert(kept[i] == sorted[i] && kept[j] == sorted[j]);
            } else {
                if i < max_width - 1 {
                    assert(kept[i] == sorted[i]);
                    assert(sorted.contains(sorted[i]));
                    vstd::seq_lib::to_multiset_contains(sorted, sorted[i]);
                    vstd::seq_lib::to_multiset_contains(layer, sorted[i]);
                }
                if j < max_width - 1 {
                    assert(kept[j] == sorted[j]);
                    assert(sorted.contains(sorted[j]));
                    vstd::seq_lib::to_multiset_contains(sorted, sorted[j]);
                    vstd::seq_lib::to_multiset_contains(layer, sorted[j]);
                }
            }
        }
        if before.unbounded() {
            assert forall|n: int| 0 <= n < self.nodes@.len() implies !(
            #[trigger] self.nodes@[n]).flags.marked() && self.nodes@[n].value_bot == isize::MIN by {
                if n != merged {
                    assert(self.nodes@[n] == before.nodes@[n]);
                } else if merged < before.nodes@.len() {
                    assert(!before.nodes@[n].flags.marked());
                }
            }
        }
        assert forall|n: int|
            0 <= n < before.settled@ && n < before.nodes@.len() && n < self.nodes@.len() implies {
            &&& (#[trigger] self.nodes@[n]).state == before.nodes@[n].state
            &&& self.nodes@[n].value == before.nodes@[n].value
            &&& self.nodes@[n].best == before.nodes@[n].best
            &&& self.nodes@[n].inbound == before.nodes@[n].inbound
        } by {
            assert(self.nodes@[n] == before.nodes@[n]);
        }
    }

    /// Width control keeps a faithful diagram faithful; and where it does
    /// not relax, it keeps every node exact if every node was.
    pub proof fn lemma_width_control_keeps_faithful<P, R, K>(
        &self,
        before: &Self,
        problem: &P,
        comp_type: CompilationType,
        relaxation: &R,
        ranking: &K,
        max_width: usize,
        depth: usize,
        layer: Seq<usize>,
        kept: Seq<usize>,
    ) where P: Problem<State = T>, R: Relaxation<State = T>, K: StateRanking<State = T>
        requires
            before.wf(),
            self.is_width_controlled(
                before,
                comp_type,
                relaxation,
                ranking,
                max_width,
                depth,
                layer,
                kept,
            ),
        ensures
            before.faithful(problem) ==> self.faithful(problem),
            !(comp_type is Relaxed) && before.all_exact() ==> self.all_exact(),
    {
        if !must_shrink(comp_type, max_width, depth, layer.len()) {
        } else if comp_type is Restricted {
            self.lemma_capture_keeps_faithful(before, problem);
        } else {
            let (captured, prepared) = choose|captured: Self, prepared: Self|
                {
                    &&& #[trigger] captured.is_captured_from(before)
                    &&& if before.lel is None {
                        prepared.is_bounded_layer_from(&captured, relaxation, layer)
                    } else {
                        prepared == captured
                    }
                    &&& #[trigger] self.is_relaxation_of(
                        &prepared,
                        relaxation,
                        ranking,
                        max_width,
                        layer,
                        kept,
                    )
                };
            captured.lemma_capture_keeps_faithful(before, problem);
            if before.lel is None {
                assert(prepared.same_arena(&captured)) by {
                    assert forall|n: int| 0 <= n < prepared.nodes@.len() implies {
                        &&& (#[trigger] prepared.nodes@[n]).state == captured.nodes@[n].state
                        &&& prepared.nodes@[n].value == captured.nodes@[n].value
                        &&& prepared.nodes@[n].best == captured.nodes@[n].best
                        &&& prepared.nodes@[n].inbound == captured.nodes@[n].inbound
                        &&& prepared.nodes@[n].flags.exact() == captured.nodes@[n].flags.exact()
                        &&& prepared.nodes@[n].flags.relaxed() == captured.nodes@[n].flags.relaxed()
                    } by {
                        assert(crate::mdd::branch::same_but_rub(
                            prepared.nodes@[n],
                            captured.nodes@[n],
                        ));
                    }
                }
                prepared.lemma_same_arena_wf(&captured);
                if captured.faithful(problem) {
                    prepared.lemma_same_arena_faithful(&captured, problem);
                }
            }
            if prepared.faithful(problem) {
                let (sorted, merged, cursor) = choose|
                    sorted: Seq<usize>,
                    merged: usize,
                    cursor: &mut crate::abstraction::StateIter<'_, T>,
                |
                    {
                        &&& sorted.to_multiset() == layer.to_multiset()
                        &&& prepared.ordered(ranking, sorted)
                        &&& #[trigger] call_ensures(
                            R::merge,
                            (relaxation, cursor),
                            *self.nodes@[merged as int].state,
                        )
                        &&& cursor.position == 0
                        &&& prepared.shows_states(cursor.states@, sorted.skip(max_width - 1))
                        &&& #[trigger] self.is_after_merge(
                            &prepared,
                            relaxation,
                            sorted.skip(max_width - 1),
                            merged,
                        )
                        &&& if merged < prepared.nodes@.len() {
                            &&& kept == sorted.take(max_width as int)
                            &&& exists|w: int|
                                {
                                    &&& 0 <= w < max_width - 1
                                    &&& #[trigger] sorted[w] == merged
                                    &&& forall|k: int|
                                        0 <= k < w ==> prepared.nodes@[#[trigger] sorted[k] as int].state
                                            != self.nodes@[merged as int].state
                                }
                        } else {
                            &&& kept == sorted.take(max_width - 1).push(merged)
                            &&& forall|i: int|
                                0 <= i < max_width - 1 ==> prepared.nodes@[#[trigger] sorted[i] as int].state
                                    != self.nodes@[merged as int].state
                        }
                    };
                assert forall|n: int|
                    0 <= n < prepared.nodes@.len() && n != merged implies #[trigger] self.kept(
                    &prepared,
                    n,
                ) by {
                    assert(self.nodes@[n] == prepared.nodes@[n]);
                }
                self.lemma_extends_faithful(&prepared, problem);
            }
        }
    }

    /// The capture of the last exact layer keeps a faithful diagram
    /// faithful, every node exact if every node was, and the diagram well
    /// formed.
    pub proof fn lemma_capture_keeps_faithful<P: Problem<State = T>>(&self, before: &Self, problem: &P)
        requires
            before.wf(),
            self.is_captured_from(before),
        ensures
            self.wf(),
            before.faithful(problem) ==> self.faithful(problem),
            before.all_exact() ==> self.all_exact(),
    {
        if before.lel is None {
            assert(self.same_arena(before)) by {
                assert forall|n: int| 0 <= n < self.nodes@.len() implies {
                    &&& (#[trigger] self.nodes@[n]).state == before.nodes@[n].state
                    &&& self.nodes@[n].value == before.nodes@[n].value
                    &&& self.nodes@[n].best == before.nodes@[n].best
                    &&& self.nodes@[n].inbound == before.nodes@[n].inbound
                    &&& self.nodes@[n].flags.exact() == before.nodes@[n].flags.exact()
                    &&& self.nodes@[n].flags.relaxed() == before.nodes@[n].flags.relaxed()
                } by {
                    assert(crate::mdd::cutset::same_but_cutset(self.nodes@[n], before.nodes@[n]));
                }
            }
            self.lemma_same_arena_wf(before);
            if before.faithful(problem) {
                self.lemma_same_arena_faithful(before, problem);
            }
            if before.all_exact() {
                assert forall|n: int| 0 <= n < self.nodes@.len() implies (
                #[trigger] self.nodes@[n]).flags.exact() by {
                    assert(before.nodes@[n].flags.exact());
                }
            }
        }
    }
}

} // verus!
