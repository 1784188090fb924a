//! A first-in-first-out worklist with duplicate suppression: a deque of
//! pending items plus a membership set that is never cleared, so every item
//! enters the deque at most once and a traversal driven by the queue performs
//! a bounded number of operations.

use vstd::prelude::*;
use crate::bitset::{BitSet, count_trues, lemma_count_trues_le_len, lemma_count_trues_lt_len,
    lemma_count_trues_update_true};
use std::collections::VecDeque;

verus! {

/// A worklist over the items `0..universe`: a FIFO deque of pending items and
/// a membership set recording every item ever inserted.
pub struct WorkQueue {
    deque: VecDeque<usize>,
    set: BitSet,
}

impl WorkQueue {
    /// The size of the item universe.
    pub closed spec fn universe(&self) -> nat {
        self.set@.len()
    }

    /// Whether `x` was ever inserted (or marked as visited).
    pub closed spec fn in_set(&self, x: int) -> bool {
        0 <= x < self.set@.len() && self.set@[x]
    }

    /// The pending items, oldest first.
    pub closed spec fn queued(&self) -> Seq<usize> {
        self.deque@
    }

    /// The pending items as a set.
    pub closed spec fn queued_set(&self) -> Set<int> {
        Set::new(
            |x: int|
                exists|j: int| 0 <= j < self.queued().len() && self.queued()[j] as int == x,
        )
    }

    /// Pending items are marked, in range, and pending at most once.
    pub closed spec fn wf(&self) -> bool {
        &&& self.set@.len() <= usize::MAX
        &&& forall|j: int|
            0 <= j < self.deque@.len() ==> (#[trigger] self.deque@[j]) < self.set@.len()
                && self.set@[self.deque@[j] as int]
        &&& forall|j1: int, j2: int|
            0 <= j1 < self.deque@.len() && 0 <= j2 < self.deque@.len() && j1 != j2 ==> (
            #[trigger] self.deque@[j1]) != (#[trigger] self.deque@[j2])
    }

    /// How many queue operations can still happen: items never inserted plus
    /// items pending. Inserting keeps it; taking decrements it.
    pub closed spec fn measure(&self) -> nat {
        (self.set@.len() - count_trues(self.set@)) as nat + self.deque@.len()
    }

    /// The measure never exceeds the universe plus the pending count, so a
    /// loop that pops each iteration stops within that many iterations.
    pub proof fn lemma_measure_bound(&self)
        requires
            self.wf(),
        ensures
            self.measure() <= self.universe() + self.queued().len(),
    {
        lemma_count_trues_le_len(self.set@);
    }

    /// An empty queue over the items `0..universe`.
    pub fn with_none(universe: usize) -> (r: WorkQueue)
        ensures
            r.wf(),
            r.universe() == universe,
            r.queued().len() == 0,
            forall|x: int| !r.in_set(x),
            forall|x: int| !r.queued_set().contains(x),
    {
        let r = WorkQueue { deque: VecDeque::new(), set: BitSet::new_empty(universe) };
        proof {
            assert forall|x: int| !r.queued_set().contains(x) by {
                if r.queued_set().contains(x) {
                    let j = choose|j: int|
                        0 <= j < r.queued().len() && r.queued()[j] as int == x;
                }
            }
        }
        r
    }

    /// How many items are pending.
    pub fn len(&self) -> (r: usize)
        ensures
            r == self.queued().len(),
            r == 0 ==> forall|x: int| !self.queued_set().contains(x),
    {
        let r = self.deque.len();
        proof {
            if r == 0 {
                assert forall|x: int| !self.queued_set().contains(x) by {
                    if self.queued_set().contains(x) {
                        let j = choose|j: int|
                            0 <= j < self.queued().len() && self.queued()[j] as int == x;
                    }
                }
            }
        }
        r
    }

    /// Marks every member of `visited` as already seen, so it will never be
    /// inserted.
    pub fn mark_visited(&mut self, visited: &BitSet)
        requires
            old(self).wf(),
            visited@.len() == old(self).universe(),
        ensures
            final(self).wf(),
            final(self).universe() == old(self).universe(),
            final(self).queued() == old(self).queued(),
            final(self).queued_set() == old(self).queued_set(),
            forall|x: int|
                final(self).in_set(x) == (old(self).in_set(x) || (0 <= x < visited@.len()
                    && visited@[x])),
    {
        self.set.union_with(visited);
    }

    /// Inserts `x` unless it was ever inserted or marked before. The measure
    /// is unchanged either way.
    pub fn insert(&mut self, x: usize)
        requires
            old(self).wf(),
            x < old(self).universe(),
        ensures
            final(self).wf(),
            final(self).universe() == old(self).universe(),
            final(self).in_set(x as int),
            forall|y: int| old(self).in_set(y) ==> final(self).in_set(y),
            forall|y: int| final(self).in_set(y) ==> old(self).in_set(y) || y == x as int,
            old(self).in_set(x as int) ==> *final(self) == *old(self),
            !old(self).in_set(x as int) ==> final(self).queued() == old(self).queued().push(x),
            old(self).in_set(x as int) ==> final(self).queued() == old(self).queued(),
            forall|y: int|
                final(self).queued_set().contains(y) <==> (old(self).queued_set().contains(y) || (
                y == x as int && !old(self).in_set(x as int))),
            final(self).measure() == old(self).measure(),
    {
        if !self.set.contains(x) {
            proof {
                lemma_count_trues_update_true(self.set@, x as int);
                lemma_count_trues_lt_len(self.set@, x as int);
            }
            self.deque.push_back(x);
            self.set.insert(x);
            proof {
                assert forall|y: int|
                    self.queued_set().contains(y) <==> (old(self).queued_set().contains(y)
                        || y == x as int) by {
                    if old(self).queued_set().contains(y) {
                        let j = choose|j: int|
                            0 <= j < old(self).queued().len() && old(self).queued()[j] as int
                                == y;
                        assert(self.queued()[j] as int == y);
                        assert(self.queued_set().contains(y));
                    }
                    if y == x as int {
                        assert(self.queued()[self.queued().len() - 1] as int == y);
                        assert(self.queued_set().contains(y));
                    }
                    if self.queued_set().contains(y) {
                        let j = choose|j: int|
                            0 <= j < self.queued().len() && self.queued()[j] as int == y;
                        if j < self.queued().len() - 1 {
                            assert(old(self).queued()[j] as int == y);
                            assert(old(self).queued_set().contains(y));
                        } else {
                            assert(y == x as int);
                        }
                    }
                }
            }
        }
    }

    /// Takes the oldest pending item; its membership mark stays, so it can
    /// never enter the deque again. Decrements the measure.
    pub fn take(&mut self) -> (r: Option<usize>)
        requires
            old(self).wf(),
        ensures
            final(self).wf(),
            final(self).universe() == old(self).universe(),
            forall|y: int| final(self).in_set(y) == old(self).in_set(y),
            match r {
                None => old(self).queued().len() == 0 && final(self).queued() == old(
                    self,
                ).queued() && final(self).queued_set() == old(self).queued_set()
                    && final(self).measure() == old(self).measure(),
                Some(x) => {
                    &&& old(self).queued().len() > 0
                    &&& x == old(self).queued()[0]
                    &&& final(self).queued() == old(self).queued().subrange(
                        1,
                        old(self).queued().len() as int,
                    )
                    &&& old(self).in_set(x as int)
                    &&& x < old(self).universe()
                    &&& final(self).measure() == old(self).measure() - 1
                    &&& old(self).queued_set().contains(x as int)
                    &&& !final(self).queued_set().contains(x as int)
                    &&& forall|y: int|
                        final(self).queued_set().contains(y) ==> old(self).queued_set().contains(
                            y,
                        )
                    &&& forall|y: int|
                        old(self).queued_set().contains(y) && y != x as int
                            ==> final(self).queued_set().contains(y)
                },
            },
    {
        let r = self.deque.pop_front();
        proof {
            match r {
                None => {},
                Some(x) => {
                    assert(x == old(self).queued()[0]);
                    assert(old(self).queued_set().contains(x as int)) by {
                        assert(old(self).queued()[0] as int == x as int);
                    }
                    assert forall|y: int|
                        self.queued_set().contains(y) implies old(self).queued_set().contains(y) by {
                        let j = choose|j: int|
                            0 <= j < self.queued().len() && self.queued()[j] as int == y;
                        assert(old(self).queued()[j + 1] as int == y);
                    }
                    assert forall|y: int|
                        old(self).queued_set().contains(y) && y != x as int implies self.queued_set().contains(y) by {
                        let j = choose|j: int|
                            0 <= j < old(self).queued().len() && old(self).queued()[j] as int
                                == y;
                        assert(j != 0);
                        assert(self.queued()[j - 1] as int == y);
                    }
                    if self.queued_set().contains(x as int) {
                        let j = choose|j: int|
                            0 <= j < self.queued().len() && self.queued()[j] as int == x as int;
                        assert(old(self).queued()[j + 1] as int == x as int);
                        assert(old(self).queued()[0] as int == x as int);
                        assert(false);
                    }
                },
            }
        }
        r
    }
}

impl WorkQueue {
    /// Inserts every member of `deps` that was never seen before.
    pub fn enqueue_members(&mut self, deps: &BitSet)
        requires
            old(self).wf(),
            deps@.len() == old(self).universe(),
        ensures
            final(self).wf(),
            final(self).universe() == old(self).universe(),
            forall|x: int| old(self).in_set(x) ==> final(self).in_set(x),
            forall|x: int| deps.members().contains(x) ==> final(self).in_set(x),
            forall|x: int|
                final(self).in_set(x) ==> old(self).in_set(x) || deps.members().contains(x),
            forall|x: int|
                final(self).queued_set().contains(x) ==> old(self).queued_set().contains(x) || (
                deps.members().contains(x) && !old(self).in_set(x)),
            forall|x: int| old(self).queued_set().contains(x) ==> final(self).queued_set().contains(x),
            forall|x: int|
                deps.members().contains(x) && !old(self).in_set(x)
                    ==> final(self).queued_set().contains(x),
            final(self).measure() == old(self).measure(),
    {
        let n = deps.universe();
        let mut t: usize = 0;
        while t < n
            invariant
                t <= n,
                n == deps@.len(),
                n == self.universe(),
                self.wf(),
                forall|x: int| old(self).in_set(x) ==> self.in_set(x),
                forall|x: int| t <= x < n ==> (self.in_set(x) <==> old(self).in_set(x)),
                forall|x: int|
                    deps.members().contains(x) && x < t ==> self.in_set(x),
                forall|x: int|
                    self.in_set(x) ==> old(self).in_set(x) || deps.members().contains(x),
                forall|x: int|
                    self.queued_set().contains(x) ==> old(self).queued_set().contains(x) || (
                    deps.members().contains(x) && !old(self).in_set(x)),
                forall|x: int|
                    old(self).queued_set().contains(x) ==> self.queued_set().contains(x),
                forall|x: int|
                    deps.members().contains(x) && x < t && !old(self).in_set(x)
                        ==> self.queued_set().contains(x),
                self.measure() == old(self).measure(),
            decreases n - t,
        {
            if deps.contains(t) {
                proof {
                    assert(deps.members().contains(t as int));
                }
                self.insert(t);
            }
            t = t + 1;
        }
    }
}

} // verus!
