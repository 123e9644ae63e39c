//! The dependency substrate: per-entity forward- and reverse-cumulative
//! dependency sets (reachability closures over shared-resource edges), and
//! in-order queries over entity sets.

use vstd::prelude::*;

use crate::entity_set::EntitySet;
use crate::interface::{
    lemma_reaches_bounds, lemma_reaches_last_edge, lemma_reaches_trans, Direction, Entity,
    SchedulerInput, Usage,
};

verus! {

/// Whether two entities touch at least one common resource.
pub fn shares_exec(inp: &SchedulerInput, a: usize, b: usize) -> (r: bool)
    requires
        a < inp.n(),
        b < inp.n(),
    ensures
        r == inp.shares(a as int, b as int),
{
    let ua: &Vec<Usage> = &inp.entities[a].usages;
    let ub: &Vec<Usage> = &inp.entities[b].usages;
    let mut i: usize = 0;
    while i < ua.len()
        invariant
            a < inp.n(),
            b < inp.n(),
            i <= ua@.len(),
            ua@ == inp.usage_seq(a as int),
            ub@ == inp.usage_seq(b as int),
            forall|k1: int, k2: int|
                0 <= k1 < i && 0 <= k2 < ub@.len() ==> ua@[k1].resource != ub@[k2].resource,
        decreases ua@.len() - i,
    {
        let mut j: usize = 0;
        while j < ub.len()
            invariant
                a < inp.n(),
                b < inp.n(),
                i < ua@.len(),
                j <= ub@.len(),
                ua@ == inp.usage_seq(a as int),
                ub@ == inp.usage_seq(b as int),
                forall|k2: int| 0 <= k2 < j ==> ua@[i as int].resource != ub@[k2].resource,
            decreases ub@.len() - j,
        {
            if ua[i].resource == ub[j].resource {
                proof {
                    let r = ua@[i as int].resource as int;
                    assert(inp.uses_resource(a as int, r));
                    assert(inp.uses_resource(b as int, r));
                }
                return true;
            }
            j += 1;
        }
        i += 1;
    }
    proof {
        assert(!inp.shares(a as int, b as int)) by {
            if inp.shares(a as int, b as int) {
                let r = choose|r: int|
                    inp.uses_resource(a as int, r) && inp.uses_resource(b as int, r);
                let k1 = choose|k: int|
                    0 <= k < inp.usage_seq(a as int).len() && inp.usage_seq(a as int)[k].resource
                        as int == r;
                let k2 = choose|k: int|
                    0 <= k < inp.usage_seq(b as int).len() && inp.usage_seq(b as int)[k].resource
                        as int == r;
                assert(ua@[k1].resource != ub@[k2].resource);
                assert(false);
            }
        }
    }
    false
}

/// The dependency substrate of a finalized input: for every entity `e`,
/// `for_cum[e]` holds the entities reachable from `e` along dependency edges
/// (inclusive) and `rev_cum[e]` the entities that reach `e` (inclusive).
pub struct ResourceSchedule {
    pub for_cum: Vec<EntitySet>,
    pub rev_cum: Vec<EntitySet>,
}

impl ResourceSchedule {
    /// The cumulative sets agree exactly with the reachability relation of
    /// the input.
    pub open spec fn wf(self, inp: SchedulerInput) -> bool {
        &&& self.for_cum@.len() == inp.n()
        &&& self.rev_cum@.len() == inp.n()
        &&& forall|e: int| 0 <= e < inp.n() ==> (#[trigger] self.for_cum@[e]).universe() == inp.n()
        &&& forall|e: int| 0 <= e < inp.n() ==> (#[trigger] self.rev_cum@[e]).universe() == inp.n()
        &&& forall|e: int, b: int|
            #![trigger self.for_cum@[e].spec_contains(b)]
            0 <= e < inp.n() ==> self.for_cum@[e].spec_contains(b) == inp.reaches(e, b)
        &&& forall|e: int, a: int|
            #![trigger self.rev_cum@[e].spec_contains(a)]
            0 <= e < inp.n() ==> self.rev_cum@[e].spec_contains(a) == inp.reaches(a, e)
    }

    /// Derives both cumulative-dependency closures from the finalized input
    /// by propagating unions of successor/predecessor closures along the
    /// global (index) order.
    pub fn compute(inp: &SchedulerInput) -> (rs: Self)
        ensures
            rs.wf(*inp),
    {
        let n = inp.entities.len();

        // Forward closures, filled from the last entity down.
        let mut for_cum: Vec<EntitySet> = Vec::new();
        let mut k: usize = 0;
        while k < n
            invariant
                k <= n,
                for_cum@.len() == k,
                forall|j: int| 0 <= j < k ==> (#[trigger] for_cum@[j]).universe() == n,
            decreases n - k,
        {
            for_cum.push(EntitySet::new(n));
            k += 1;
        }
        let mut e: usize = n;
        while e > 0
            invariant
                e <= n,
                n == inp.n(),
                for_cum@.len() == n,
                forall|j: int| 0 <= j < n ==> (#[trigger] for_cum@[j]).universe() == n,
                forall|j: int, b: int|
                    #![trigger for_cum@[j].spec_contains(b)]
                    e <= j < n ==> for_cum@[j].spec_contains(b) == inp.reaches(j, b),
            decreases e,
        {
            e -= 1;
            let mut s = EntitySet::new(n);
            s.insert(e);
            let mut m: usize = e + 1;
            while m < n
                invariant
                    e < m,
                    m <= n,
                    e < n,
                    n == inp.n(),
                    for_cum@.len() == n,
                    forall|j: int| 0 <= j < n ==> (#[trigger] for_cum@[j]).universe() == n,
                    forall|j: int, b: int|
                        #![trigger for_cum@[j].spec_contains(b)]
                        e < j < n ==> for_cum@[j].spec_contains(b) == inp.reaches(j, b),
                    s.universe() == n,
                    forall|b: int|
                        #![trigger s.spec_contains(b)]
                        s.spec_contains(b) == (b == e as int || exists|mm: int|
                            e < mm < m && inp.dep_edge(e as int, mm) && inp.reaches(mm, b)),
                decreases n - m,
            {
                let ghost sprev = s;
                if shares_exec(inp, e, m) {
                    s.union_into(&for_cum[m]);
                }
                proof {
                    assert forall|b: int|
                        #![trigger s.spec_contains(b)]
                        s.spec_contains(b) == (b == e as int || exists|mm: int|
                            e < mm < m + 1 && inp.dep_edge(e as int, mm) && inp.reaches(
                                mm,
                                b,
                            )) by {
                        if s.spec_contains(b) {
                            if !sprev.spec_contains(b) {
                                assert(for_cum@[m as int].spec_contains(b));
                                assert(inp.dep_edge(e as int, m as int) && inp.reaches(m as int, b));
                            }
                        }
                        if b == e as int {
                            assert(sprev.spec_contains(b));
                            assert(s.spec_contains(b));
                        } else {
                            if exists|mm: int|
                                e < mm < m + 1 && inp.dep_edge(e as int, mm) && inp.reaches(mm, b) {
                                let mm = choose|mm: int|
                                    e < mm < m + 1 && inp.dep_edge(e as int, mm) && inp.reaches(
                                        mm,
                                        b,
                                    );
                                if mm < m {
                                    assert(sprev.spec_contains(b));
                                    assert(s.spec_contains(b));
                                } else {
                                    assert(inp.shares(e as int, m as int));
                                    assert(for_cum@[m as int].spec_contains(b));
                                    assert(s.spec_contains(b));
                                }
                            }
                        }
                    }
                }
                m += 1;
            }
            proof {
                assert forall|b: int|
                    #![trigger s.spec_contains(b)]
                    s.spec_contains(b) == inp.reaches(e as int, b) by {
                    if s.spec_contains(b) {
                        if b == e as int {
                            assert(inp.reaches(e as int, b));
                        } else {
                            let mm = choose|mm: int|
                                e < mm < n && inp.dep_edge(e as int, mm) && inp.reaches(mm, b);
                            lemma_reaches_bounds(*inp, mm, b);
                            assert(inp.reaches(e as int, b));
                        }
                    }
                    if inp.reaches(e as int, b) {
                        if b != e as int {
                            let mm = choose|mm: int|
                                inp.dep_edge(e as int, mm) && mm <= b && inp.reaches(mm, b);
                            lemma_reaches_bounds(*inp, mm, b);
                            assert(e < mm < n && inp.dep_edge(e as int, mm) && inp.reaches(mm, b));
                            assert(s.spec_contains(b));
                        }
                    }
                }
            }
            for_cum.set(e, s);
        }

        // Reverse closures, filled from the first entity up.
        let mut rev_cum: Vec<EntitySet> = Vec::new();
        let mut e: usize = 0;
        while e < n
            invariant
                e <= n,
                n == inp.n(),
                rev_cum@.len() == e,
                forall|j: int| 0 <= j < e ==> (#[trigger] rev_cum@[j]).universe() == n,
                forall|j: int, a: int|
                    #![trigger rev_cum@[j].spec_contains(a)]
                    0 <= j < e ==> rev_cum@[j].spec_contains(a) == inp.reaches(a, j),
            decreases n - e,
        {
            let mut s = EntitySet::new(n);
            s.insert(e);
            let mut m: usize = 0;
            while m < e
                invariant
                    m <= e,
                    e < n,
                    n == inp.n(),
                    rev_cum@.len() == e,
                    forall|j: int| 0 <= j < e ==> (#[trigger] rev_cum@[j]).universe() == n,
                    forall|j: int, a: int|
                        #![trigger rev_cum@[j].spec_contains(a)]
                        0 <= j < e ==> rev_cum@[j].spec_contains(a) == inp.reaches(a, j),
                    s.universe() == n,
                    forall|a: int|
                        #![trigger s.spec_contains(a)]
                        s.spec_contains(a) == (a == e as int || exists|mm: int|
                            0 <= mm < m && inp.dep_edge(mm, e as int) && inp.reaches(a, mm)),
                decreases e - m,
            {
                let ghost sprev = s;
                if shares_exec(inp, m, e) {
                    s.union_into(&rev_cum[m]);
                }
                proof {
                    assert forall|a: int|
                        #![trigger s.spec_contains(a)]
                        s.spec_contains(a) == (a == e as int || exists|mm: int|
                            0 <= mm < m + 1 && inp.dep_edge(mm, e as int) && inp.reaches(
                                a,
                                mm,
                            )) by {
                        if s.spec_contains(a) {
                            if !sprev.spec_contains(a) {
                                assert(rev_cum@[m as int].spec_contains(a));
                                assert(inp.dep_edge(m as int, e as int) && inp.reaches(a, m as int));
                            }
                        }
                        if a == e as int {
                            assert(sprev.spec_contains(a));
                            assert(s.spec_contains(a));
                        } else {
                            if exists|mm: int|
                                0 <= mm < m + 1 && inp.dep_edge(mm, e as int) && inp.reaches(
                                    a,
                                    mm,
                                ) {
                                let mm = choose|mm: int|
                                    0 <= mm < m + 1 && inp.dep_edge(mm, e as int) && inp.reaches(
                                        a,
                                        mm,
                                    );
                                if mm < m {
                                    assert(sprev.spec_contains(a));
                                    assert(s.spec_contains(a));
                                } else {
                                    assert(inp.shares(m as int, e as int));
                                    assert(rev_cum@[m as int].spec_contains(a));
                                    assert(s.spec_contains(a));
                                }
                            }
                        }
                    }
                }
                m += 1;
            }
            proof {
                assert forall|a: int|
                    #![trigger s.spec_contains(a)]
                    s.spec_contains(a) == inp.reaches(a, e as int) by {
                    if s.spec_contains(a) {
                        if a == e as int {
                            assert(inp.reaches(a, e as int));
                        } else {
                            let mm = choose|mm: int|
                                0 <= mm < e && inp.dep_edge(mm, e as int) && inp.reaches(a, mm);
                            assert(inp.reaches(e as int, e as int));
                            assert(inp.reaches(mm, e as int));
                            lemma_reaches_trans(*inp, a, mm, e as int);
                        }
                    }
                    if inp.reaches(a, e as int) {
                        if a != e as int {
                            lemma_reaches_last_edge(*inp, a, e as int);
                            let mm = choose|mm: int|
                                inp.reaches(a, mm) && #[trigger] inp.dep_edge(mm, e as int);
                            assert(0 <= mm < e && inp.dep_edge(mm, e as int) && inp.reaches(a, mm));
                            assert(s.spec_contains(a));
                        }
                    }
                }
            }
            rev_cum.push(s);
            e += 1;
        }

        ResourceSchedule { for_cum, rev_cum }
    }

    /// The usages recorded for one entity, in registration order.
    pub fn usages_by<'a>(&self, inp: &'a SchedulerInput, e: Entity) -> (r: &'a Vec<Usage>)
        requires
            e < inp.n(),
        ensures
            r@ == inp.usage_seq(e as int),
    {
        &inp.entities[e].usages
    }

    /// The topologically extreme member of a set: its first member in the
    /// global schedule order for `Direction::Forward`, its last for
    /// `Direction::Reverse`; `None` exactly when the set is empty.
    pub fn first_entity(&self, set: &EntitySet, dir: Direction) -> (r: Option<Entity>)
        ensures
            match r {
                Some(e) => set.spec_contains(e as int) && (match dir {
                    Direction::Forward => forall|i: int| 0 <= i < e ==> !set.spec_contains(i),
                    Direction::Reverse => forall|i: int| i > e ==> !set.spec_contains(i),
                }),
                None => forall|i: int| !set.spec_contains(i),
            },
    {
        match dir {
            Direction::Forward => {
                let mut j: usize = 0;
                while j < set.bits.len()
                    invariant
                        dir == Direction::Forward,
                        j <= set.bits@.len(),
                        forall|i: int| 0 <= i < j ==> !set.spec_contains(i),
                    decreases set.bits@.len() - j,
                {
                    if set.bits[j] {
                        return Some(j);
                    }
                    j += 1;
                }
                None
            },
            Direction::Reverse => {
                let mut j: usize = set.bits.len();
                while j > 0
                    invariant
                        dir == Direction::Reverse,
                        j <= set.bits@.len(),
                        forall|i: int| j <= i ==> !set.spec_contains(i),
                    decreases j,
                {
                    j -= 1;
                    if set.bits[j] {
                        return Some(j);
                    }
                }
                None
            },
        }
    }

    /// The members of a set in the globally consistent schedule order.
    pub fn iter_in_order_boundset(&self, set: &EntitySet) -> (v: Vec<Entity>)
        ensures
            v@ == crate::entity_set::asc_members(set.to_set(), set.universe()),
    {
        set.members()
    }
}

} // verus!
