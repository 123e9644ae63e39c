//! A dense index set over a fixed universe, used for per-entity cumulative
//! dependency sets, render-pass membership and per-pass resource sets. It
//! supports membership, insertion, union, intersection, a disjointness test
//! and in-order enumeration of its members.

use vstd::prelude::*;

verus! {

pub struct EntitySet {
    pub bits: Vec<bool>,
}

impl EntitySet {
    /// Size of the universe the set draws its members from.
    pub open spec fn universe(self) -> int {
        self.bits@.len() as int
    }

    pub open spec fn spec_contains(self, i: int) -> bool {
        0 <= i < self.bits@.len() && self.bits@[i]
    }

    /// The set's members as a mathematical set.
    pub open spec fn to_set(self) -> Set<int> {
        Set::new(|i: int| self.spec_contains(i))
    }

    pub fn new(universe: usize) -> (s: Self)
        ensures
            s.universe() == universe,
            forall|i: int| !s.spec_contains(i),
    {
        let mut bits: Vec<bool> = Vec::new();
        let mut k: usize = 0;
        while k < universe
            invariant
                k <= universe,
                bits@.len() == k,
                forall|i: int| 0 <= i < k ==> !bits@[i],
            decreases universe - k,
        {
            bits.push(false);
            k += 1;
        }
        EntitySet { bits }
    }

    pub fn contains(&self, e: usize) -> (r: bool)
        ensures
            r == self.spec_contains(e as int),
    {
        if e < self.bits.len() {
            self.bits[e]
        } else {
            false
        }
    }

    pub fn insert(&mut self, e: usize)
        requires
            e < old(self).universe(),
        ensures
            final(self).universe() == old(self).universe(),
            forall|i: int|
                #![trigger final(self).spec_contains(i)]
                final(self).spec_contains(i) == (old(self).spec_contains(i) || i == e as int),
    {
        self.bits.set(e, true);
    }

    /// Adds every member of `other` to `self`.
    pub fn union_into(&mut self, other: &EntitySet)
        requires
            other.universe() == old(self).universe(),
        ensures
            final(self).universe() == old(self).universe(),
            forall|i: int|
                #![trigger final(self).spec_contains(i)]
                final(self).spec_contains(i) == (old(self).spec_contains(i)
                    || other.spec_contains(i)),
    {
        let u = self.union(other);
        self.bits = u.bits;
    }

    /// The set of indices present in either set.
    pub fn union(&self, other: &EntitySet) -> (s: EntitySet)
        requires
            other.universe() == self.universe(),
        ensures
            s.universe() == self.universe(),
            forall|i: int|
                #![trigger s.spec_contains(i)]
                s.spec_contains(i) == (self.spec_contains(i) || other.spec_contains(i)),
    {
        let mut bits: Vec<bool> = Vec::new();
        let mut j: usize = 0;
        while j < self.bits.len()
            invariant
                other.universe() == self.universe(),
                j <= self.bits@.len(),
                bits@.len() == j,
                forall|i: int|
                    0 <= i < j ==> bits@[i] == (self.spec_contains(i) || other.spec_contains(i)),
            decreases self.bits@.len() - j,
        {
            bits.push(self.bits[j] || other.bits[j]);
            j += 1;
        }
        EntitySet { bits }
    }

    /// The set of indices present in both sets.
    pub fn intersection(&self, other: &EntitySet) -> (s: EntitySet)
        requires
            other.universe() == self.universe(),
        ensures
            s.universe() == self.universe(),
            forall|i: int|
                #![trigger s.spec_contains(i)]
                s.spec_contains(i) == (self.spec_contains(i) && other.spec_contains(i)),
    {
        let mut bits: Vec<bool> = Vec::new();
        let mut j: usize = 0;
        while j < self.bits.len()
            invariant
                other.universe() == self.universe(),
                j <= self.bits@.len(),
                bits@.len() == j,
                forall|i: int|
                    0 <= i < j ==> bits@[i] == (self.spec_contains(i) && other.spec_contains(i)),
            decreases self.bits@.len() - j,
        {
            bits.push(self.bits[j] && other.bits[j]);
            j += 1;
        }
        EntitySet { bits }
    }

    /// True when the two sets share no member.
    pub fn is_disjoint(&self, other: &EntitySet) -> (r: bool)
        requires
            other.universe() == self.universe(),
        ensures
            r == forall|i: int| !(self.spec_contains(i) && other.spec_contains(i)),
    {
        let mut j: usize = 0;
        while j < self.bits.len()
            invariant
                other.universe() == self.universe(),
                j <= self.bits@.len(),
                forall|i: int| 0 <= i < j ==> !(self.spec_contains(i) && other.spec_contains(i)),
            decreases self.bits@.len() - j,
        {
            if self.bits[j] && other.bits[j] {
                assert(self.spec_contains(j as int) && other.spec_contains(j as int));
                return false;
            }
            j += 1;
        }
        true
    }

    /// An identical set over the same universe.
    pub fn copy(&self) -> (s: EntitySet)
        ensures
            s.universe() == self.universe(),
            forall|i: int| #![trigger s.spec_contains(i)] s.spec_contains(i) == self.spec_contains(i),
            s.bits@ == self.bits@,
    {
        let mut bits: Vec<bool> = Vec::new();
        let mut j: usize = 0;
        while j < self.bits.len()
            invariant
                j <= self.bits@.len(),
                bits@ == self.bits@.take(j as int),
            decreases self.bits@.len() - j,
        {
            bits.push(self.bits[j]);
            assert(bits@ =~= self.bits@.take(j + 1 as int));
            j += 1;
        }
        assert(bits@ =~= self.bits@);
        EntitySet { bits }
    }

    /// The members of the set in ascending index order, exactly
    /// [`asc_members`] of the set.
    pub fn members(&self) -> (v: Vec<usize>)
        ensures
            v@ == asc_members(self.to_set(), self.universe()),
    {
        let mut v: Vec<usize> = Vec::new();
        let mut j: usize = 0;
        while j < self.bits.len()
            invariant
                j <= self.bits@.len(),
                v@ == asc_members(self.to_set(), j as int),
            decreases self.bits@.len() - j,
        {
            if self.bits[j] {
                v.push(j);
            }
            j += 1;
        }
        v
    }
}

/// The members of `m` below `k`, listed in ascending order.
pub open spec fn asc_members(m: Set<int>, k: int) -> Seq<usize>
    decreases k,
{
    if k <= 0 {
        Seq::empty()
    } else if m.contains(k - 1) {
        asc_members(m, k - 1).push((k - 1) as usize)
    } else {
        asc_members(m, k - 1)
    }
}

/// Everything [`asc_members`] lists is a member below the bound, listed in
/// strictly ascending order, and every member below the bound is listed.
pub proof fn lemma_asc_members_props(m: Set<int>, k: int)
    requires
        k <= usize::MAX,
    ensures
        forall|q: int|
            0 <= q < asc_members(m, k).len()
                ==> m.contains(#[trigger] asc_members(m, k)[q] as int)
                    && 0 <= asc_members(m, k)[q] < k,
        forall|q1: int, q2: int|
            0 <= q1 < q2 < asc_members(m, k).len()
                ==> asc_members(m, k)[q1] < asc_members(m, k)[q2],
        forall|i: int|
            0 <= i < k && m.contains(i)
                ==> exists|q: int|
                    0 <= q < asc_members(m, k).len() && #[trigger] asc_members(m, k)[q] == i,
    decreases k,
{
    if k > 0 {
        lemma_asc_members_props(m, k - 1);
        let prev = asc_members(m, k - 1);
        let s = asc_members(m, k);
        if m.contains(k - 1) {
            assert(s == prev.push((k - 1) as usize));
            assert(s[s.len() - 1] == (k - 1) as usize);
            assert forall|q: int|
                0 <= q < s.len() implies m.contains(#[trigger] s[q] as int) && 0 <= s[q]
                < k by {
                if q < prev.len() {
                    assert(s[q] == prev[q]);
                    assert(m.contains(prev[q] as int));
                }
            }
            assert forall|q1: int, q2: int| 0 <= q1 < q2 < s.len() implies s[q1] < s[q2] by {
                if q2 < prev.len() {
                    assert(prev[q1] < prev[q2]);
                } else {
                    assert(s[q1] == prev[q1]);
                    assert(prev[q1] < k - 1);
                }
            }
            assert forall|i: int| 0 <= i < k && m.contains(i) implies exists|q: int|
                0 <= q < s.len() && #[trigger] s[q] == i by {
                if i == k - 1 {
                    assert(s[s.len() - 1] == i);
                } else {
                    let q = choose|q: int| 0 <= q < prev.len() && #[trigger] prev[q] == i;
                    assert(s[q] == i);
                }
            }
        } else {
            assert(s == prev);
        }
    }
}

} // verus!
