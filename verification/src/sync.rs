//! Synchronization-slot assignment: every registered sync point (a present
//! operation waiting on a resource) gets one semaphore slot, bound to the
//! schedule position of that resource's last writer.

use vstd::prelude::*;

use crate::interface::{SchedulerInput, SemaphoreId, Usage};

verus! {

/// Entity `w` is the last writer of resource `r`.
pub open spec fn is_last_writer(inp: SchedulerInput, r: int, w: int) -> bool {
    &&& 0 <= w < inp.n()
    &&& inp.write_use(w, r)
    &&& forall|w2: int| w < w2 < inp.n() ==> !inp.write_use(w2, r)
}

/// The semaphores (among the first `k` sync points) whose resource's last
/// writer sits at schedule position `pos`, in ascending order.
pub open spec fn sems_at(inp: SchedulerInput, pos: int, k: int) -> Seq<usize>
    decreases k,
{
    if k <= 0 {
        Seq::empty()
    } else if is_last_writer(inp, inp.sync_points@[k - 1] as int, pos) {
        sems_at(inp, pos, k - 1).push((k - 1) as usize)
    } else {
        sems_at(inp, pos, k - 1)
    }
}

/// One synchronization slot per schedule position: the semaphores that must
/// be signalled when the entity at that position completes.
pub struct SyncStrategy {
    pub slots: Vec<Vec<SemaphoreId>>,
}

impl SyncStrategy {
    pub open spec fn matches(self, inp: SchedulerInput) -> bool {
        &&& self.slots@.len() == inp.n()
        &&& forall|pos: int|
            0 <= pos < inp.n() ==> (#[trigger] self.slots@[pos])@ == sems_at(
                inp,
                pos,
                inp.sync_points@.len() as int,
            )
    }

    /// Assigns each registered sync point's semaphore to the schedule
    /// position of its resource's last writer; positions nothing waits on
    /// get no slot.
    pub fn assign(inp: &SchedulerInput) -> (s: Self)
        requires
            inp.wf(),
        ensures
            s.matches(*inp),
    {
        let n = inp.entities.len();
        let slen = inp.sync_points.len();
        let mut slots: Vec<Vec<SemaphoreId>> = Vec::new();
        let mut pos: usize = 0;
        while pos < n
            invariant
                inp.wf(),
                n == inp.n(),
                slen == inp.sync_points@.len(),
                pos <= n,
                slots@.len() == pos,
                forall|p: int|
                    0 <= p < pos ==> (#[trigger] slots@[p])@ == sems_at(*inp, p, slen as int),
            decreases n - pos,
        {
            let mut sv: Vec<SemaphoreId> = Vec::new();
            let mut s: usize = 0;
            while s < slen
                invariant
                    inp.wf(),
                    n == inp.n(),
                    pos < n,
                    slen == inp.sync_points@.len(),
                    s <= slen,
                    sv@ == sems_at(*inp, pos as int, s as int),
                decreases slen - s,
            {
                let r = inp.sync_points[s];
                if is_last_writer_exec(inp, r, pos) {
                    sv.push(s);
                }
                s += 1;
            }
            slots.push(sv);
            pos += 1;
        }
        SyncStrategy { slots }
    }
}

/// Whether entity `e` writes resource `r`.
pub fn writes_exec(inp: &SchedulerInput, e: usize, r: usize) -> (b: bool)
    requires
        e < inp.n(),
    ensures
        b == inp.write_use(e as int, r as int),
{
    let us: &Vec<Usage> = &inp.entities[e].usages;
    let mut k: usize = 0;
    while k < us.len()
        invariant
            e < inp.n(),
            k <= us@.len(),
            us@ == inp.usage_seq(e as int),
            forall|kk: int|
                0 <= kk < k ==> !(us@[kk].resource == r && (#[trigger] us@[kk]).kind.write),
        decreases us@.len() - k,
    {
        if us[k].resource == r && us[k].kind.write {
            proof {
                assert(inp.usage_seq(e as int)[k as int].resource as int == r as int
                    && inp.usage_seq(e as int)[k as int].kind.write);
            }
            return true;
        }
        k += 1;
    }
    proof {
        assert(!inp.write_use(e as int, r as int)) by {
            if inp.write_use(e as int, r as int) {
                let kk = choose|kk: int|
                    0 <= kk < inp.usage_seq(e as int).len() && inp.usage_seq(e as int)[kk].resource
                        as int == r as int && inp.usage_seq(e as int)[kk].kind.write;
                assert(!(us@[kk].resource == r && us@[kk].kind.write));
                assert(false);
            }
        }
    }
    false
}

/// Whether entity `w` is the last writer of resource `r`.
pub fn is_last_writer_exec(inp: &SchedulerInput, r: usize, w: usize) -> (b: bool)
    requires
        w < inp.n(),
    ensures
        b == is_last_writer(*inp, r as int, w as int),
{
    if !writes_exec(inp, w, r) {
        return false;
    }
    let n = inp.entities.len();
    let mut w2: usize = w + 1;
    while w2 < n
        invariant
            w < w2,
            w2 <= n,
            n == inp.n(),
            inp.write_use(w as int, r as int),
            forall|x: int| w < x < w2 ==> !inp.write_use(x, r as int),
        decreases n - w2,
    {
        if writes_exec(inp, w2, r) {
            return false;
        }
        w2 += 1;
    }
    true
}

} // verus!
