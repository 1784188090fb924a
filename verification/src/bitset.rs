//! A fixed-size set of small integers, stored as one flag per possible member.

use vstd::prelude::*;

verus! {

/// Number of `true` entries in a sequence of flags.
pub open spec fn count_trues(s: Seq<bool>) -> nat
    decreases s.len(),
{
    if s.len() == 0 {
        0
    } else {
        count_trues(s.drop_last()) + (if s.last() { 1nat } else { 0nat })
    }
}

/// The number of set flags never exceeds the number of flags.
pub proof fn lemma_count_trues_le_len(s: Seq<bool>)
    ensures
        count_trues(s) <= s.len(),
    decreases s.len(),
{
    if s.len() > 0 {
        lemma_count_trues_le_len(s.drop_last());
    }
}

/// Setting one flag from `false` to `true` raises the count by one.
pub proof fn lemma_count_trues_update_true(s: Seq<bool>, i: int)
    requires
        0 <= i < s.len(),
        !s[i],
    ensures
        count_trues(s.update(i, true)) == count_trues(s) + 1,
    decreases s.len(),
{
    let t = s.update(i, true);
    if i == s.len() - 1 {
        assert(t.drop_last() =~= s.drop_last());
    } else {
        assert(t.drop_last() =~= s.drop_last().update(i, true));
        lemma_count_trues_update_true(s.drop_last(), i);
    }
}

/// A sequence with some flag clear has fewer set flags than entries.
pub proof fn lemma_count_trues_lt_len(s: Seq<bool>, i: int)
    requires
        0 <= i < s.len(),
        !s[i],
    ensures
        count_trues(s) < s.len(),
    decreases s.len(),
{
    if i == s.len() - 1 {
        lemma_count_trues_le_len(s.drop_last());
    } else {
        lemma_count_trues_lt_len(s.drop_last(), i);
    }
}

/// Pointwise implication between flag sequences bounds their counts, strictly
/// so if some flag is set on the right only.
pub proof fn lemma_count_trues_pointwise(a: Seq<bool>, b: Seq<bool>)
    requires
        a.len() == b.len(),
        forall|i: int| 0 <= i < a.len() ==> (a[i] ==> b[i]),
    ensures
        count_trues(a) <= count_trues(b),
        (exists|i: int| 0 <= i < a.len() && !a[i] && b[i]) ==> count_trues(a) < count_trues(b),
    decreases a.len(),
{
    if a.len() > 0 {
        assert(forall|i: int| 0 <= i < a.len() - 1 ==> (a.drop_last()[i] ==> b.drop_last()[i]));
        lemma_count_trues_pointwise(a.drop_last(), b.drop_last());
        if exists|i: int| 0 <= i < a.len() && !a[i] && b[i] {
            let i = choose|i: int| 0 <= i < a.len() && !a[i] && b[i];
            if i == a.len() - 1 {
            } else {
                assert(!a.drop_last()[i] && b.drop_last()[i]);
            }
        }
    }
}

/// A set of integers drawn from a fixed universe `0..len`, one flag per member.
#[derive(Clone)]
pub struct BitSet {
    flags: Vec<bool>,
}

impl View for BitSet {
    type V = Seq<bool>;

    /// The set's contents, one flag per possible member.
    closed spec fn view(&self) -> Seq<bool> {
        self.flags@
    }
}

impl BitSet {
    /// The members of the set, as a mathematical set of integers.
    pub open spec fn members(&self) -> Set<int> {
        Set::new(|i: int| 0 <= i < self@.len() && self@[i])
    }

    /// Creates an empty set over the universe `0..universe`.
    pub fn new_empty(universe: usize) -> (r: BitSet)
        ensures
            r@.len() == universe,
            forall|i: int| 0 <= i < universe ==> !r@[i],
    {
        let mut flags: Vec<bool> = Vec::new();
        let mut i: usize = 0;
        while i < universe
            invariant
                i <= universe,
                flags@.len() == i,
                forall|j: int| 0 <= j < i ==> !flags@[j],
            decreases universe - i,
        {
            flags.push(false);
            i = i + 1;
        }
        BitSet { flags }
    }

    /// The size of the universe the set draws from.
    pub fn universe(&self) -> (r: usize)
        ensures
            r == self@.len(),
    {
        self.flags.len()
    }

    /// Whether `x` is a member.
    pub fn contains(&self, x: usize) -> (r: bool)
        requires
            x < self@.len(),
        ensures
            r == self@[x as int],
    {
        self.flags[x]
    }

    /// Adds `x` to the set.
    pub fn insert(&mut self, x: usize)
        requires
            x < old(self)@.len(),
        ensures
            final(self)@ == old(self)@.update(x as int, true),
    {
        self.flags.set(x, true);
    }

    /// Removes `x` from the set.
    pub fn remove(&mut self, x: usize)
        requires
            x < old(self)@.len(),
        ensures
            final(self)@ == old(self)@.update(x as int, false),
    {
        self.flags.set(x, false);
    }

    /// Clones the set.
    pub fn clone_set(&self) -> (r: BitSet)
        ensures
            r@ == self@,
    {
        let mut flags: Vec<bool> = Vec::new();
        let mut i: usize = 0;
        while i < self.flags.len()
            invariant
                i <= self.flags@.len(),
                flags@ == self.flags@.take(i as int),
            decreases self.flags@.len() - i,
        {
            flags.push(self.flags[i]);
            i = i + 1;
        }
        proof {
            assert(self.flags@.take(self.flags@.len() as int) =~= self.flags@);
        }
        BitSet { flags }
    }

    /// Makes this set equal to `src`, which must draw from the same universe.
    pub fn copy_from(&mut self, src: &BitSet)
        requires
            old(self)@.len() == src@.len(),
        ensures
            final(self)@ == src@,
    {
        let mut i: usize = 0;
        while i < src.flags.len()
            invariant
                i <= src.flags@.len(),
                self.flags@.len() == src.flags@.len(),
                forall|j: int| 0 <= j < i ==> self.flags@[j] == src.flags@[j],
            decreases src.flags@.len() - i,
        {
            self.flags.set(i, src.flags[i]);
            i = i + 1;
        }
        proof {
            assert(self.flags@ =~= src.flags@);
        }
    }

    /// Adds every member of `other`, reporting whether anything changed.
    pub fn union_with(&mut self, other: &BitSet) -> (changed: bool)
        requires
            old(self)@.len() == other@.len(),
        ensures
            final(self)@.len() == old(self)@.len(),
            forall|i: int|
                #![trigger final(self)@[i]]
                0 <= i < final(self)@.len() ==> final(self)@[i] == (old(self)@[i] || other@[i]),
            changed == (final(self)@ != old(self)@),
    {
        let ghost orig = self.flags@;
        let mut changed = false;
        let mut i: usize = 0;
        while i < other.flags.len()
            invariant
                i <= other.flags@.len(),
                self.flags@.len() == orig.len() == other.flags@.len(),
                forall|j: int|
                    #![trigger self.flags@[j]]
                    0 <= j < i ==> self.flags@[j] == (orig[j] || other.flags@[j]),
                forall|j: int| i <= j < orig.len() ==> self.flags@[j] == orig[j],
                changed == (exists|j: int| 0 <= j < i && self.flags@[j] != orig[j]),
            decreases other.flags@.len() - i,
        {
            let ob = other.flags[i];
            let sb = self.flags[i];
            if ob && !sb {
                self.flags.set(i, true);
                changed = true;
                proof {
                    assert(self.flags@[i as int] != orig[i as int]);
                }
            }
            proof {
                assert(self.flags@[i as int] == (orig[i as int] || other.flags@[i as int]));
                assert forall|j: int| 0 <= j < i + 1 implies self.flags@[j] == (orig[j]
                    || other.flags@[j]) by {}
            }
            i = i + 1;
        }
        proof {
            if changed {
                assert(self.flags@ != orig);
            } else {
                assert(self.flags@ =~= orig);
            }
        }
        changed
    }

    /// Removes every member of `other`.
    pub fn subtract(&mut self, other: &BitSet)
        requires
            old(self)@.len() == other@.len(),
        ensures
            final(self)@.len() == old(self)@.len(),
            forall|i: int|
                #![trigger final(self)@[i]]
                0 <= i < final(self)@.len() ==> final(self)@[i] == (old(self)@[i] && !other@[i]),
    {
        let ghost orig = self.flags@;
        let mut i: usize = 0;
        while i < other.flags.len()
            invariant
                i <= other.flags@.len(),
                self.flags@.len() == orig.len() == other.flags@.len(),
                forall|j: int|
                    #![trigger self.flags@[j]]
                    0 <= j < i ==> self.flags@[j] == (orig[j] && !other.flags@[j]),
                forall|j: int| i <= j < orig.len() ==> self.flags@[j] == orig[j],
            decreases other.flags@.len() - i,
        {
            let ob = other.flags[i];
            let sb = self.flags[i];
            if ob && sb {
                self.flags.set(i, false);
            }
            proof {
                assert(self.flags@[i as int] == (orig[i as int] && !other.flags@[i as int]));
            }
            i = i + 1;
        }
    }

    /// How many members the set has.
    pub fn count(&self) -> (r: usize)
        ensures
            r == count_trues(self@),
    {
        let mut r: usize = 0;
        let mut i: usize = 0;
        while i < self.flags.len()
            invariant
                i <= self.flags@.len(),
                r == count_trues(self.flags@.take(i as int)),
                r <= i,
            decreases self.flags@.len() - i,
        {
            proof {
                assert(self.flags@.take(i + 1).drop_last() =~= self.flags@.take(i as int));
                assert(self.flags@.take(i + 1).last() == self.flags@[i as int]);
            }
            if self.flags[i] {
                r = r + 1;
            }
            i = i + 1;
        }
        proof {
            assert(self.flags@.take(self.flags@.len() as int) =~= self.flags@);
        }
        r
    }
}

} // verus!
