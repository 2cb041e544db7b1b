//! The exact cutset: the last exact layer, captured once, and the
//! subproblems it gives rise to.

use crate::common::{min_spec, sat_add, sat_add_spec, SubProblem};
use crate::mdd::arena::{Node, WithLongArcs};
use std::hash::Hash;
use vstd::prelude::*;

verus! {

/// Says that two nodes differ at most in their cutset bit.
pub open spec fn same_but_cutset<T>(a: Node<T>, b: Node<T>) -> bool {
    &&& a.state == b.state
    &&& a.value == b.value
    &&& a.value_bot == b.value_bot
    &&& a.best == b.best
    &&& a.inbound == b.inbound
    &&& a.rub == b.rub
    &&& a.flags.exact() == b.flags.exact()
    &&& a.flags.relaxed() == b.flags.relaxed()
    &&& a.flags.marked() == b.flags.marked()
}

/// Says that node `n` is among the first `count` of `ids`.
pub open spec fn among(ids: Seq<usize>, count: int, n: int) -> bool {
    exists|k: int| 0 <= k < count && k < ids.len() && #[trigger] ids[k] == n
}

impl<T: Eq + Hash> WithLongArcs<T> {
    /// The diagram after the layer that was developed last became its last
    /// exact layer, when `before` is the diagram before that: the ids of
    /// that layer are the cutset, each of its nodes has the cutset bit, and
    /// nothing else differs.
    pub open spec fn is_after_capture(&self, before: &Self) -> bool {
        &&& self.lel matches Some(lel) && lel@ == before.prev_l@
        &&& self.root_pa@ == before.root_pa@
        &&& self.edges@ == before.edges@
        &&& self.next_l@ == before.next_l@
        &&& self.prev_l@ == before.prev_l@
        &&& self.best_n == before.best_n
        &&& self.exact == before.exact
        &&& self.settled@ == before.settled@
        &&& self.nodes@.len() == before.nodes@.len()
        &&& forall|n: int|
            0 <= n < self.nodes@.len() ==> {
                &&& same_but_cutset(#[trigger] self.nodes@[n], before.nodes@[n])
                &&& self.nodes@[n].flags.cutset() == (before.nodes@[n].flags.cutset()
                    || among(before.prev_l@, before.prev_l@.len() as int, n))
            }
    }

    /// Says that `self` is `before` once its last exact layer is captured:
    /// captured now if `before` had none, else `before` as it was.
    pub open spec fn is_captured_from(&self, before: &Self) -> bool {
        if before.lel is None {
            self.is_after_capture(before)
        } else {
            *self == *before
        }
    }

    /// Captures the last exact layer unless one was captured before, and
    /// tells whether it did.
    pub fn maybe_save_lel(&mut self) -> (saved: bool)
        requires
            old(self).wf(),
        ensures
            final(self).wf(),
            saved == old(self).lel is None,
            final(self).is_captured_from(old(self)),
    {
        if self.lel.is_none() {
            let ghost before = *self;
            let mut lel: Vec<usize> = Vec::new();
            let mut i: usize = 0;
            while i < self.prev_l.len()
                invariant
                    i <= self.prev_l@.len(),
                    before.wf(),
                    self.wf(),
                    lel@ == self.prev_l@.take(i as int),
                    self.lel == before.lel,
                    self.root_pa@ == before.root_pa@,
                    self.edges@ == before.edges@,
                    self.next_l@ == before.next_l@,
                    self.prev_l@ == before.prev_l@,
                    self.best_n == before.best_n,
                    self.exact == before.exact,
                    self.settled@ == before.settled@,
                    self.nodes@.len() == before.nodes@.len(),
                    forall|n: int|
                        0 <= n < self.nodes@.len() ==> {
                            &&& same_but_cutset(#[trigger] self.nodes@[n], before.nodes@[n])
                            &&& self.nodes@[n].flags.cutset() == (before.nodes@[n].flags.cutset()
                                || among(before.prev_l@, i as int, n))
                        },
                decreases self.prev_l@.len() - i,
            {
                let ghost during = *self;
                let id = self.prev_l[i];
                lel.push(id);
                let mut flags = self.nodes[id].flags;
                flags.set_cutset(true);
                self.nodes[id].flags = flags;
                i += 1;
                proof {
                    assert(lel@ =~= self.prev_l@.take(i as int));
                    assert forall|n: int| 0 <= n < self.nodes@.len() implies {
                        &&& same_but_cutset(#[trigger] self.nodes@[n], before.nodes@[n])
                        &&& self.nodes@[n].flags.cutset() == (before.nodes@[n].flags.cutset()
                            || among(before.prev_l@, i as int, n))
                    } by {
                        assert(same_but_cutset(during.nodes@[n], before.nodes@[n]));
                        if n == id {
                            assert(before.prev_l@[i - 1] == n);
                        } else {
                            if among(before.prev_l@, i - 1, n) {
                                let k = choose|k: int|
                                    0 <= k < i - 1 && k < before.prev_l@.len()
                                        && #[trigger] before.prev_l@[k] == n;
                                assert(before.prev_l@[k] == n);
                            }
                        }
                    }
                    self.lemma_same_arena_wf(&during);
                }
            }
            assert(lel@ =~= before.prev_l@);
            let ghost filled = *self;
            self.lel = Some(lel);
            proof {
                self.lemma_same_arena_wf(&filled);
            }
            true
        } else {
            false
        }
    }

    /// The marked nodes among the first `upto` ids of `ids`, in their order.
    pub open spec fn marked_among(&self, ids: Seq<usize>, upto: int) -> Seq<usize>
        decreases upto,
    {
        if upto <= 0 {
            Seq::empty()
        } else if self.nodes@[ids[upto - 1] as int].flags.marked() {
            self.marked_among(ids, upto - 1).push(ids[upto - 1])
        } else {
            self.marked_among(ids, upto - 1)
        }
    }

    /// The upper bound of the subproblem of cutset node `id` in a diagram
    /// whose best value is `best`: the least of its value plus its rough
    /// upper bound, its value plus the length of its longest path below,
    /// and `best`.
    pub open spec fn cutset_ub(&self, id: int, best: isize) -> isize {
        let node = self.nodes@[id];
        min_spec(
            min_spec(sat_add_spec(node.value, node.rub), sat_add_spec(node.value, node.value_bot)),
            best,
        )
    }

    /// Says that `sub` is the subproblem of cutset node `id` in a diagram
    /// whose best value is `best`.
    pub open spec fn is_subproblem_of(&self, sub: SubProblem<T>, id: int, best: isize) -> bool {
        &&& sub.state == self.nodes@[id].state
        &&& sub.value == self.nodes@[id].value
        &&& sub.path@ == self.best_path(id)
        &&& sub.ub == self.cutset_ub(id, best)
    }

    /// The ids of the nodes whose subproblems form the cutset: the marked
    /// nodes of the last exact layer, or none where the diagram has no best
    /// value or no last exact layer.
    pub open spec fn cutset_ids(&self) -> Seq<usize> {
        match (self.best_n, self.lel) {
            (Some(_), Some(lel)) => self.marked_among(lel@, lel@.len() as int),
            _ => Seq::empty(),
        }
    }

    /// Takes the cutset out of the diagram: one subproblem for each marked
    /// node of the last exact layer, in the order of that layer. A diagram
    /// without a best value gives none and keeps its last exact layer; any
    /// other is left with an empty one.
    pub fn take_cutset(&mut self) -> (cutset: Vec<SubProblem<T>>)
        requires
            old(self).wf(),
        ensures
            final(self).wf(),
            final(self).is_drained_from(old(self)),
            old(self).is_cutset(cutset@),
            forall|i: int|
                0 <= i < cutset@.len() ==> (#[trigger] cutset@[i]).ub
                    <= old(self).best_value_spec().unwrap(),
    {
        let ghost before = *self;
        let mut cutset: Vec<SubProblem<T>> = Vec::new();
        let best_value = match self.best_value() {
            Some(value) => value,
            None => {
                return cutset;
            },
        };
        if self.lel.is_none() {
            return cutset;
        }
        let lel = self.lel.take().unwrap();
        let ghost taken = *self;
        proof {
            self.lemma_same_arena_wf(&before);
        }
        let mut i: usize = 0;
        while i < lel.len()
            invariant
                i <= lel@.len(),
                before.wf(),
                before.lel == Some(lel),
                before.best_value_spec() == Some(best_value),
                *self == taken,
                self.wf(),
                self.nodes@ == before.nodes@,
                self.edges@ == before.edges@,
                self.root_pa@ == before.root_pa@,
                cutset@.len() == before.marked_among(lel@, i as int).len(),
                forall|j: int|
                    0 <= j < cutset@.len() ==> before.is_subproblem_of(
                        #[trigger] cutset@[j],
                        before.marked_among(lel@, i as int)[j] as int,
                        best_value,
                    ),
            decreases lel@.len() - i,
        {
            let id = lel[i];
            assert(before.lel.unwrap()@[i as int] < before.nodes@.len());
            if self.nodes[id].flags.is_marked() {
                let value = self.nodes[id].value;
                let rub = sat_add(value, self.nodes[id].rub);
                let locb = sat_add(value, self.nodes[id].value_bot);
                let least = if rub <= locb {
                    rub
                } else {
                    locb
                };
                let ub = if least <= best_value {
                    least
                } else {
                    best_value
                };
                let path = self.best_path_of(id);
                proof {
                    assert(self.best_path(id as int) == before.best_path(id as int)) by {
                        self.lemma_same_paths(&before, id as int);
                    }
                }
                cutset.push(SubProblem { state: self.nodes[id].state.clone(), value, path, ub });
            }
            i += 1;
        }
        self.lel = Some(Vec::new());
        proof {
            self.lemma_same_arena_wf(&before);
        }
        cutset
    }

    /// Two diagrams with the same nodes, edges and root path have the same
    /// best paths.
    pub proof fn lemma_same_paths(&self, other: &Self, n: int)
        requires
            self.nodes@ == other.nodes@,
            self.edges@ == other.edges@,
            self.root_pa@ == other.root_pa@,
        ensures
            self.best_decisions(n) == other.best_decisions(n),
            self.best_path(n) == other.best_path(n),
            self.path_value(n) == other.path_value(n),
            self.exact_best_path(n) == other.exact_best_path(n),
        decreases n,
    {
        match self.best_source(n) {
            Some(source) => {
                self.lemma_same_paths(other, source);
            },
            None => {},
        }
    }

    /// Hands every subproblem of the cutset to `func`, in the order of the
    /// last exact layer, and takes the cutset out of the diagram.
    pub fn drain_cutset<F: FnMut(SubProblem<T>)>(&mut self, func: F)
        requires
            old(self).wf(),
            forall|sub: SubProblem<T>| call_requires(func, (sub,)),
        ensures
            final(self).wf(),
            final(self).is_drained_from(old(self)),
            exists|cutset: Seq<SubProblem<T>>|
                {
                    &&& #[trigger] old(self).is_cutset(cutset)
                    &&& forall|i: int|
                        0 <= i < cutset.len() ==> call_ensures(func, (#[trigger] cutset[i],), ())
                },
    {
        let ghost before = *self;
        let mut func = func;
        let ghost handed = func;
        let mut cutset = self.take_cutset();
        let ghost all = cutset@;
        let mut rest: Vec<SubProblem<T>> = Vec::new();
        while cutset.len() > 0
            invariant
                cutset@.len() + rest@.len() == all.len(),
                forall|k: int| 0 <= k < cutset@.len() ==> #[trigger] cutset@[k] == all[k],
                forall|k: int|
                    0 <= k < rest@.len() ==> #[trigger] rest@[k] == all[all.len() - 1 - k],
            decreases cutset@.len(),
        {
            let sub = cutset.pop().unwrap();
            rest.push(sub);
        }
        while rest.len() > 0
            invariant
                rest@.len() <= all.len(),
                forall|sub: SubProblem<T>| call_requires(func, (sub,)),
                forall|k: int|
                    0 <= k < rest@.len() ==> #[trigger] rest@[k] == all[all.len() - 1 - k],
                forall|k: int|
                    0 <= k < all.len() - rest@.len() ==> call_ensures(
                        handed,
                        (#[trigger] all[k],),
                        (),
                    ),
                func == handed,
            decreases rest@.len(),
        {
            let sub = rest.pop().unwrap();
            func(sub);
        }
        proof {
            assert(before.is_cutset(all));
        }
    }

    /// Says that `self` is `before` with its cutset taken out: a diagram
    /// with a best value and a last exact layer is left with an empty last
    /// exact layer; any other is as it was.
    pub open spec fn is_drained_from(&self, before: &Self) -> bool {
        &&& self.root_pa@ == before.root_pa@
        &&& self.nodes@ == before.nodes@
        &&& self.edges@ == before.edges@
        &&& self.next_l@ == before.next_l@
        &&& self.prev_l@ == before.prev_l@
        &&& self.best_n == before.best_n
        &&& self.exact == before.exact
        &&& self.settled@ == before.settled@
        &&& before.best_n is None || before.lel is None ==> self.lel == before.lel
        &&& before.best_n is Some && before.lel is Some ==> (self.lel matches Some(lel)
            && lel@.len() == 0)
    }

    /// Says that `cutset` is the cutset of the diagram: the subproblems of
    /// the marked nodes of the last exact layer, in the order of that layer.
    pub open spec fn is_cutset(&self, cutset: Seq<SubProblem<T>>) -> bool {
        &&& cutset.len() == self.cutset_ids().len()
        &&& forall|i: int|
            0 <= i < cutset.len() ==> self.is_subproblem_of(
                #[trigger] cutset[i],
                self.cutset_ids()[i] as int,
                self.best_value_spec().unwrap(),
            )
    }
}

} // verus!
